//! Kitty graphics protocol commands for the preview image, and where the
//! image lands in its pane.
use vstd::prelude::*;
use base64::Engine;
use crate::text::{chars_of, decimal};

verus! {

/// The placement id every preview image uses.
pub const PLACEMENT_ID: u32 = 1;

/// How many base64 bytes one transmission chunk carries.
pub const CHUNK_SIZE: usize = 4096;

/// The Kitty image id of one preview instance.
#[derive(Clone, Copy, Debug, Eq, PartialEq, Structural)]
pub struct ImageId(u32);

impl ImageId {
    /// The id for a hash value: its low 32 bits, and never zero.
    pub fn from_hash(hash: u64) -> (r: ImageId)
        ensures
            r.value() == if hash as u32 == 0 {
                1u32
            } else {
                hash as u32
            },
    {
        let low = hash as u32;
        ImageId(if low > 1 { low } else { 1 })
    }

    pub closed spec fn spec_value(self) -> u32 {
        self.0
    }

    /// The numeric id.
    #[verifier::when_used_as_spec(spec_value)]
    pub fn value(self) -> (r: u32)
        ensures
            r == self.spec_value(),
    {
        self.0
    }
}

/// A terminal cell rectangle: its top-left cell and its size in cells.
#[derive(Clone, Copy, Debug, Eq, PartialEq, Structural)]
pub struct Rect {
    pub x: u16,
    pub y: u16,
    pub width: u16,
    pub height: u16,
}

impl Rect {
    pub fn new(x: u16, y: u16, width: u16, height: u16) -> (r: Rect)
        ensures
            r == (Rect { x, y, width, height }),
    {
        Rect { x, y, width, height }
    }
}

/// A source-pixel rectangle cropped out of a PNG before it is placed.
///
/// Kitty displays only this window of the image, letting an oversized (zoomed)
/// render fill the pane while its off-pane pixels are clipped.
#[derive(Clone, Copy, Debug, Eq, PartialEq, Structural)]
pub struct Crop {
    pub x: u32,
    pub y: u32,
    pub width: u32,
    pub height: u32,
}

/// Where a PNG lands in the pane: the cell rectangle to draw into, the source
/// window to draw from when the image is larger than the pane, and how far the
/// caller may pan that window from center, in cells, before it hits an edge.
#[derive(Clone, Copy, Debug, Eq, PartialEq)]
pub struct Placement {
    pub cell: Rect,
    pub crop: Option<Crop>,
    pub pan_limit: (i32, i32),
}

pub open spec fn ceil_div(a: nat, b: nat) -> nat
    recommends
        b > 0,
{
    ((a + b - 1) / b as int) as nat
}

pub open spec fn min_nat(a: nat, b: nat) -> nat {
    if a <= b {
        a
    } else {
        b
    }
}

/// `center + pan * cell` clamped to `[0, slack]`.
pub open spec fn pan_axis_spec(center: u32, pan: i32, cell: u32, slack: u32) -> u32 {
    let shifted = center + pan * cell;
    if shifted < 0 {
        0
    } else if shifted > slack {
        slack
    } else {
        shifted as u32
    }
}

/// The columns (or rows) the image spans in a pane of `pane` cells.
pub open spec fn span(image: u32, cell: u32, pane: u16) -> nat {
    min_nat(ceil_div(image as nat, cell as nat), pane as nat)
}

/// Whether placing an image of this size in this pane needs no arithmetic past `u32`.
pub open spec fn fits_arithmetic(pane: Rect, image_width: u32, image_height: u32, cell_width: u32, cell_height: u32) -> bool {
    cell_width > 0 && cell_height > 0 ==> (span(image_width, cell_width, pane.width) * cell_width <= u32::MAX
        && span(image_height, cell_height, pane.height) * cell_height <= u32::MAX)
}

/// Where an image of `image_width` x `image_height` pixels lands in `pane` with
/// cells of `cell_width` x `cell_height` pixels, panned by `pan` cells.
pub open spec fn placement_of(
    pane: Rect,
    image_width: u32,
    image_height: u32,
    cell_width: u32,
    cell_height: u32,
    pan: (i32, i32),
) -> Placement {
    if cell_width == 0 || cell_height == 0 {
        Placement { cell: pane, crop: None, pan_limit: (0, 0) }
    } else {
        let full_columns = ceil_div(image_width as nat, cell_width as nat);
        let full_rows = ceil_div(image_height as nat, cell_height as nat);
        let columns = span(image_width, cell_width, pane.width);
        let rows = span(image_height, cell_height, pane.height);
        let cell = Rect {
            x: (pane.x + (pane.width - columns) / 2) as u16,
            y: (pane.y + (pane.height - rows) / 2) as u16,
            width: columns as u16,
            height: rows as u16,
        };
        if full_columns <= pane.width && full_rows <= pane.height {
            Placement { cell, crop: None, pan_limit: (0, 0) }
        } else {
            let width = if columns * cell_width <= image_width {
                (columns * cell_width) as u32
            } else {
                image_width
            };
            let height = if rows * cell_height <= image_height {
                (rows * cell_height) as u32
            } else {
                image_height
            };
            let center_x = ((image_width - width) / 2) as u32;
            let center_y = ((image_height - height) / 2) as u32;
            Placement {
                cell,
                crop: Some(
                    Crop {
                        x: pan_axis_spec(center_x, pan.0, cell_width, (image_width - width) as u32),
                        y: pan_axis_spec(center_y, pan.1, cell_height, (image_height - height) as u32),
                        width,
                        height,
                    },
                ),
                pan_limit: (
                    ceil_div(center_x as nat, cell_width as nat) as i32,
                    ceil_div(center_y as nat, cell_height as nat) as i32,
                ),
            }
        }
    }
}

fn div_ceil_u32(a: u32, b: u32) -> (r: u32)
    requires
        b > 0,
    ensures
        r == ceil_div(a as nat, b as nat),
{
    let q = a / b;
    if a % b == 0 {
        assert(ceil_div(a as nat, b as nat) == q) by (nonlinear_arith)
            requires
                b > 0,
                q == a / b,
                a % b == 0,
        ;
        q
    } else {
        assert(ceil_div(a as nat, b as nat) == q + 1 && q + 1 <= u32::MAX) by (nonlinear_arith)
            requires
                b > 0,
                q == a / b,
                a % b != 0,
                a <= u32::MAX,
        ;
        q + 1
    }
}

/// Offset a centered crop origin by `pan` cells, clamped to `[0, slack]`.
pub fn pan_axis(center: u32, pan: i32, cell: u32, slack: u32) -> (r: u32)
    ensures
        r == pan_axis_spec(center, pan, cell, slack),
{
    assert(-0x8000_0000 * 0xffff_ffff <= pan * cell <= 0x7fff_ffff * 0xffff_ffff) by (nonlinear_arith)
        requires
            -0x8000_0000 <= pan < 0x8000_0000,
            0 <= cell < 0x1_0000_0000,
    ;
    let shifted = center as i64 + (pan as i64) * (cell as i64);
    if shifted < 0 {
        0
    } else if shifted > slack as i64 {
        slack
    } else {
        shifted as u32
    }
}

/// Center a PNG of `image_width` x `image_height` pixels within `pane`,
/// cropping to the pane when the image overflows it; `pan` slides the cropped
/// window off center by whole cells, clamped to the image.
pub fn place(
    pane: Rect,
    image_width: u32,
    image_height: u32,
    cell_width: u32,
    cell_height: u32,
    pan: (i32, i32),
) -> (r: Placement)
    requires
        pane.x + pane.width <= u16::MAX,
        pane.y + pane.height <= u16::MAX,
        fits_arithmetic(pane, image_width, image_height, cell_width, cell_height),
    ensures
        r == placement_of(pane, image_width, image_height, cell_width, cell_height, pan),
{
    if cell_width == 0 || cell_height == 0 {
        return Placement { cell: pane, crop: None, pan_limit: (0, 0) };
    }
    let full_columns = div_ceil_u32(image_width, cell_width);
    let full_rows = div_ceil_u32(image_height, cell_height);
    let columns = if full_columns < pane.width as u32 {
        full_columns
    } else {
        pane.width as u32
    };
    let rows = if full_rows < pane.height as u32 {
        full_rows
    } else {
        pane.height as u32
    };
    let cell = Rect {
        x: pane.x + (pane.width - columns as u16) / 2,
        y: pane.y + (pane.height - rows as u16) / 2,
        width: columns as u16,
        height: rows as u16,
    };
    if full_columns <= pane.width as u32 && full_rows <= pane.height as u32 {
        return Placement { cell, crop: None, pan_limit: (0, 0) };
    }
    let cols_px = columns * cell_width;
    let rows_px = rows * cell_height;
    let width = if cols_px <= image_width {
        cols_px
    } else {
        image_width
    };
    let height = if rows_px <= image_height {
        rows_px
    } else {
        image_height
    };
    let center_x = (image_width - width) / 2;
    let center_y = (image_height - height) / 2;
    let x = pan_axis(center_x, pan.0, cell_width, image_width - width);
    let y = pan_axis(center_y, pan.1, cell_height, image_height - height);
    let limit_x = div_ceil_u32(center_x, cell_width);
    let limit_y = div_ceil_u32(center_y, cell_height);
    Placement {
        cell,
        crop: Some(Crop { x, y, width, height }),
        pan_limit: (limit_x as i32, limit_y as i32),
    }
}

/// The PNG signature.
pub open spec fn png_signature() -> Seq<u8> {
    seq![137u8, 80u8, 78u8, 71u8, 13u8, 10u8, 26u8, 10u8]
}

/// A big-endian `u32` from four bytes.
pub open spec fn be_u32(b: Seq<u8>, at: int) -> u32 {
    (b[at] as int * 0x100_0000 + b[at + 1] as int * 0x1_0000 + b[at + 2] as int * 0x100 + b[at + 3] as int) as u32
}

/// The width and height a PNG header declares, when both are positive.
pub open spec fn png_size(png: Seq<u8>) -> Option<(u32, u32)> {
    if png.len() >= 24 && png.take(8) == png_signature() && be_u32(png, 16) > 0 && be_u32(png, 20) > 0 {
        Some((be_u32(png, 16), be_u32(png, 20)))
    } else {
        None
    }
}

fn read_be_u32(png: &[u8], at: usize) -> (r: u32)
    requires
        at + 4 <= png@.len(),
    ensures
        r == be_u32(png@, at as int),
{
    let a = png[at] as u32;
    let b = png[at + 1] as u32;
    let c = png[at + 2] as u32;
    let d = png[at + 3] as u32;
    assert(a * 0x100_0000 + b * 0x1_0000 + c * 0x100 + d <= u32::MAX) by (nonlinear_arith)
        requires
            a < 256,
            b < 256,
            c < 256,
            d < 256,
    ;
    a * 0x100_0000 + b * 0x1_0000 + c * 0x100 + d
}

/// The pixel size a PNG's header declares.
pub fn png_dimensions(png: &[u8]) -> (r: Option<(u32, u32)>)
    ensures
        r == png_size(png@),
{
    if png.len() < 24 {
        return None;
    }
    let sig: [u8; 8] = [137, 80, 78, 71, 13, 10, 26, 10];
    let mut i: usize = 0;
    while i < 8
        invariant
            i <= 8,
            png@.len() >= 24,
            sig@ == png_signature(),
            forall|k: int| 0 <= k < i ==> png@[k] == png_signature()[k],
        decreases 8 - i,
    {
        if png[i] != sig[i] {
            assert(png@.take(8)[i as int] != png_signature()[i as int]);
            return None;
        }
        i += 1;
    }
    assert(png@.take(8) =~= png_signature());
    let width = read_be_u32(png, 16);
    let height = read_be_u32(png, 20);
    if width > 0 && height > 0 {
        Some((width, height))
    } else {
        None
    }
}

/// What the terminal reports of its size: columns, rows, and pixel width and height.
#[derive(Clone, Copy, Debug, PartialEq, Eq, Structural)]
pub struct WindowSize {
    pub columns: u16,
    pub rows: u16,
    pub width: u16,
    pub height: u16,
}


/// Calls `crossterm::terminal::window_size`, which asks the terminal for its size
/// in cells and pixels; `None` when that fails. What the terminal reports is not
/// stated: it depends on the terminal, and pixel sizes may be unset (zero).
#[verifier::external_body]
pub(crate) fn terminal_window_size() -> (r: Option<WindowSize>) {
    match crossterm::terminal::window_size() {
        Ok(w) => Some(WindowSize { columns: w.columns, rows: w.rows, width: w.width, height: w.height }),
        Err(_) => None,
    }
}

/// Where a PNG lands in `pane` for a terminal of the given size: uncropped in the
/// whole pane when the PNG's size or the terminal's cell size is unknown.
pub open spec fn png_placement(pane: Rect, png: Seq<u8>, pan: (i32, i32), window: Option<WindowSize>) -> Placement {
    let uncropped = Placement { cell: pane, crop: None, pan_limit: (0, 0) };
    match (png_size(png), window) {
        (Some((w, h)), Some(t)) => if t.columns == 0 || t.rows == 0 || t.width == 0 || t.height == 0 {
            uncropped
        } else {
            placement_of(pane, w, h, (t.width / t.columns) as u32, (t.height / t.rows) as u32, pan)
        },
        _ => uncropped,
    }
}

/// Center a PNG within `pane` for a terminal of the given size, cropping it to
/// the pane when it overflows.
pub fn place_png_in(pane: Rect, png: &[u8], pan: (i32, i32), window: Option<WindowSize>) -> (r: Placement)
    requires
        pane.x + pane.width <= u16::MAX,
        pane.y + pane.height <= u16::MAX,
    ensures
        r == png_placement(pane, png@, pan, window),
{
    let uncropped = Placement { cell: pane, crop: None, pan_limit: (0, 0) };
    let (image_width, image_height) = match png_dimensions(png) {
        Some(d) => d,
        None => {
            return uncropped;
        },
    };
    let t = match window {
        Some(t) => t,
        None => {
            return uncropped;
        },
    };
    if t.columns == 0 || t.rows == 0 || t.width == 0 || t.height == 0 {
        return uncropped;
    }
    let cell_width = t.width as u32 / t.columns as u32;
    let cell_height = t.height as u32 / t.rows as u32;
    assert(fits_arithmetic(pane, image_width, image_height, cell_width, cell_height)) by {
        let cw = cell_width;
        let ch = cell_height;
        assert(cw <= 0xffff && ch <= 0xffff);
        let sw = span(image_width, cw, pane.width);
        let sh = span(image_height, ch, pane.height);
        assert(sw <= 0xffff && sh <= 0xffff);
        assert(sw * cw <= 0xffff * 0xffff) by (nonlinear_arith)
            requires
                sw <= 0xffff,
                cw <= 0xffff,
        ;
        assert(sh * ch <= 0xffff * 0xffff) by (nonlinear_arith)
            requires
                sh <= 0xffff,
                ch <= 0xffff,
        ;
    }
    place(pane, image_width, image_height, cell_width, cell_height, pan)
}

/// Center a PNG within `pane` for the current terminal, cropping it to the pane
/// when it overflows.
pub fn place_png(pane: Rect, png: &[u8], pan: (i32, i32)) -> (r: Placement)
    requires
        pane.x + pane.width <= u16::MAX,
        pane.y + pane.height <= u16::MAX,
    ensures
        exists|window: Option<WindowSize>| r == png_placement(pane, png@, pan, window),
{
    let window = terminal_window_size();
    let r = place_png_in(pane, png, pan, window);
    assert(r == png_placement(pane, png@, pan, window));
    r
}

/// Text as the bytes of its characters (all of them ASCII here).
pub open spec fn ascii(s: Seq<char>) -> Seq<u8> {
    s.map_values(|c: char| (c as u32) as u8)
}

fn push_text(out: &mut Vec<u8>, s: &str)
    ensures
        final(out)@ == old(out)@ + ascii(s@),
{
    let v = chars_of(s);
    push_chars(out, &v);
}

fn push_chars(out: &mut Vec<u8>, v: &Vec<char>)
    ensures
        final(out)@ == old(out)@ + ascii(v@),
{
    let mut i: usize = 0;
    while i < v.len()
        invariant
            i <= v@.len(),
            out@ == old(out)@ + ascii(v@.take(i as int)),
        decreases v@.len() - i,
    {
        let c = v[i];
        out.push((c as u32) as u8);
        proof {
            assert(ascii(v@.take(i + 1)) =~= ascii(v@.take(i as int)).push((c as u32) as u8));
        }
        i += 1;
    }
    assert(v@.take(v@.len() as int) =~= v@);
}

fn push_number(out: &mut Vec<u8>, n: u32)
    ensures
        final(out)@ == old(out)@ + ascii(decimal(n as nat)),
{
    let mut digits: Vec<char> = Vec::new();
    crate::text::push_decimal(&mut digits, n as usize);
    assert(digits@ =~= decimal(n as nat));
    push_chars(out, &digits);
}

/// The command that removes only this preview's image, never Kitty's whole image store.
pub open spec fn delete_text(id: u32) -> Seq<char> {
    "\x1b_Ga=d,d=I,i="@ + decimal(id as nat) + ",q=2;\x1b\\"@
}

/// Remove only this preview instance's image: append its delete command to `out`.
pub fn delete_image(image_id: ImageId, out: &mut Vec<u8>)
    ensures
        final(out)@ == old(out)@ + ascii(delete_text(image_id.value())),
{
    let ghost before = out@;
    push_text(out, "\x1b_Ga=d,d=I,i=");
    push_number(out, image_id.0);
    push_text(out, ",q=2;\x1b\\");
    proof {
        assert(ascii(delete_text(image_id.value())) =~= ascii("\x1b_Ga=d,d=I,i="@) + ascii(decimal(image_id.0 as nat))
            + ascii(",q=2;\x1b\\"@));
        assert(out@ =~= before + ascii(delete_text(image_id.value())));
    }
}

/// The source window of a crop as placement keys.
pub open spec fn crop_text(crop: Option<Crop>) -> Seq<char> {
    match crop {
        Some(c) => ",x="@ + decimal(c.x as nat) + ",y="@ + decimal(c.y as nat) + ",w="@ + decimal(c.width as nat)
            + ",h="@ + decimal(c.height as nat),
        None => ""@,
    }
}

/// The command that places image `id` with its top-left corner at `cell`,
/// restoring the cursor afterwards; no cell size is given, so Kitty keeps the
/// image's aspect ratio.
pub open spec fn place_text(id: u32, cell: Rect, crop: Option<Crop>) -> Seq<char> {
    "\x1b[s\x1b["@ + decimal((cell.y + 1) as nat) + ";"@ + decimal((cell.x + 1) as nat) + "H\x1b_Ga=p,i="@ + decimal(id as nat)
        + ",p="@ + decimal(PLACEMENT_ID as nat) + ",C=1,q=2"@ + crop_text(crop) + ";\x1b\\\x1b[u"@
}

/// Re-place an already transmitted image without sending its pixels again:
/// append its place command to `out`; nothing for an empty cell rectangle.
pub fn place_image(image_id: ImageId, cell: Rect, crop: Option<Crop>, out: &mut Vec<u8>)
    requires
        cell.width > 0 && cell.height > 0 ==> cell.x < u16::MAX && cell.y < u16::MAX,
    ensures
        final(out)@ == if cell.width == 0 || cell.height == 0 {
            old(out)@
        } else {
            old(out)@ + ascii(place_text(image_id.value(), cell, crop))
        },
{
    if cell.width == 0 || cell.height == 0 {
        return;
    }
    let ghost before = out@;
    push_text(out, "\x1b[s\x1b[");
    push_number(out, (cell.y + 1) as u32);
    push_text(out, ";");
    push_number(out, (cell.x + 1) as u32);
    push_text(out, "H\x1b_Ga=p,i=");
    push_number(out, image_id.0);
    push_text(out, ",p=");
    push_number(out, PLACEMENT_ID);
    push_text(out, ",C=1,q=2");
    let ghost mid = out@;
    match crop {
        Some(c) => {
            push_text(out, ",x=");
            push_number(out, c.x);
            push_text(out, ",y=");
            push_number(out, c.y);
            push_text(out, ",w=");
            push_number(out, c.width);
            push_text(out, ",h=");
            push_number(out, c.height);
            proof {
                reveal_strlit("");
                assert(ascii(crop_text(crop)) =~= ascii(",x="@) + ascii(decimal(c.x as nat)) + ascii(",y="@)
                    + ascii(decimal(c.y as nat)) + ascii(",w="@) + ascii(decimal(c.width as nat)) + ascii(
                    ",h="@,
                ) + ascii(decimal(c.height as nat)));
                assert(out@ =~= mid + ascii(crop_text(crop)));
            }
        },
        None => {
            proof {
                reveal_strlit("");
                assert(ascii(crop_text(crop)) =~= Seq::<u8>::empty());
                assert(out@ =~= mid + ascii(crop_text(crop)));
            }
        },
    }
    push_text(out, ";\x1b\\\x1b[u");
    proof {
        let t = place_text(image_id.value(), cell, crop);
        assert(ascii(t) =~= ascii("\x1b[s\x1b["@) + ascii(decimal((cell.y + 1) as nat)) + ascii(";"@) + ascii(
            decimal((cell.x + 1) as nat),
        ) + ascii("H\x1b_Ga=p,i="@) + ascii(decimal(image_id.0 as nat)) + ascii(",p="@) + ascii(
            decimal(PLACEMENT_ID as nat),
        ) + ascii(",C=1,q=2"@) + ascii(crop_text(crop)) + ascii(";\x1b\\\x1b[u"@));
        assert(out@ =~= before + ascii(t));
    }
}


/// The ASCII byte of the 6-bit value `i` in the standard base64 alphabet
/// (`A`-`Z`, `a`-`z`, `0`-`9`, `+`, `/`).
pub open spec fn base64_digit(i: int) -> u8 {
    if i < 26 {
        (65 + i) as u8
    } else if i < 52 {
        (97 + i - 26) as u8
    } else if i < 62 {
        (48 + i - 52) as u8
    } else if i == 62 {
        43u8
    } else {
        47u8
    }
}

/// RFC 4648 base64 of some bytes with the standard alphabet and `=` padding,
/// as ASCII bytes: each group of three bytes becomes four digits, and a last
/// group of one or two bytes is padded with `=`.
#[verifier::opaque]
pub open spec fn base64_standard(bytes: Seq<u8>) -> Seq<u8>
    decreases bytes.len(),
{
    if bytes.len() == 0 {
        seq![]
    } else if bytes.len() == 1 {
        let a = bytes[0] as int;
        seq![base64_digit(a / 4), base64_digit((a % 4) * 16), 61u8, 61u8]
    } else if bytes.len() == 2 {
        let a = bytes[0] as int;
        let b = bytes[1] as int;
        seq![base64_digit(a / 4), base64_digit((a % 4) * 16 + b / 16), base64_digit((b % 16) * 4), 61u8]
    } else {
        let a = bytes[0] as int;
        let b = bytes[1] as int;
        let c = bytes[2] as int;
        seq![
            base64_digit(a / 4),
            base64_digit((a % 4) * 16 + b / 16),
            base64_digit((b % 16) * 4 + c / 64),
            base64_digit(c % 64),
        ] + base64_standard(bytes.skip(3))
    }
}

/// Calls `base64::engine::general_purpose::STANDARD.encode`, the standard
/// base64 alphabet with `=` padding, and returns the text's bytes; the result
/// is `base64_standard` of the input, as the crate's engine writes it.
/// Inputs so long that the encoded length overflows `usize` make it panic, so
/// they are excluded.
#[verifier::external_body]
fn encode_base64(bytes: &[u8]) -> (r: Vec<u8>)
    requires
        bytes@.len() <= usize::MAX / 2,
    ensures
        r@ == base64_standard(bytes@),
{
    base64::engine::general_purpose::STANDARD.encode(bytes).into_bytes()
}

/// The header of the transmission chunk of image `id` that starts at byte
/// `start` of the data; `more` is 1 when another chunk follows.
pub open spec fn chunk_header(id: u32, start: int, more: u32) -> Seq<char> {
    if start == 0 {
        "\x1b_Ga=t,f=100,t=d,i="@ + decimal(id as nat) + ",m="@ + decimal(more as nat) + ",q=2;"@
    } else {
        "\x1b_Gm="@ + decimal(more as nat) + ",q=2;"@
    }
}

/// The transmission of base64 `data` from byte `start` on: each chunk of at
/// most `CHUNK_SIZE` bytes with its header and terminator.
pub open spec fn upload_from(id: u32, data: Seq<u8>, start: nat) -> Seq<u8>
    decreases data.len() - start,
{
    if start >= data.len() {
        seq![]
    } else {
        let end = if start + CHUNK_SIZE < data.len() {
            start + CHUNK_SIZE
        } else {
            data.len() as int
        };
        let more: u32 = if end < data.len() {
            1
        } else {
            0
        };
        ascii(chunk_header(id, start as int, more)) + data.subrange(start as int, end) + ascii("\x1b\\"@)
            + upload_from(id, data, end as nat)
    }
}

/// Transmit base64 `data` as image `id`, split into chunks: append the commands to `out`.
pub fn upload_encoded(image_id: ImageId, data: &[u8], out: &mut Vec<u8>)
    ensures
        final(out)@ == old(out)@ + upload_from(image_id.value(), data@, 0),
{
    let n = data.len();
    let mut start: usize = 0;
    while start < n
        invariant
            start <= n == data@.len(),
            old(out)@ + upload_from(image_id.value(), data@, 0) == out@ + upload_from(image_id.value(), data@, start as nat),
        decreases n - start,
    {
        let end = if n - start > CHUNK_SIZE {
            start + CHUNK_SIZE
        } else {
            n
        };
        let more: u32 = if end < n {
            1
        } else {
            0
        };
        let ghost before = out@;
        if start == 0 {
            push_text(out, "\x1b_Ga=t,f=100,t=d,i=");
            push_number(out, image_id.0);
            push_text(out, ",m=");
            push_number(out, more);
            push_text(out, ",q=2;");
            proof {
                assert(ascii(chunk_header(image_id.value(), 0, more)) =~= ascii("\x1b_Ga=t,f=100,t=d,i="@) + ascii(
                    decimal(image_id.0 as nat),
                ) + ascii(",m="@) + ascii(decimal(more as nat)) + ascii(",q=2;"@));
            }
        } else {
            push_text(out, "\x1b_Gm=");
            push_number(out, more);
            push_text(out, ",q=2;");
            proof {
                assert(ascii(chunk_header(image_id.value(), start as int, more)) =~= ascii("\x1b_Gm="@) + ascii(
                    decimal(more as nat),
                ) + ascii(",q=2;"@));
            }
        }
        let ghost headed = out@;
        assert(headed =~= before + ascii(chunk_header(image_id.value(), start as int, more)));
        let mut i = start;
        while i < end
            invariant
                start <= i <= end <= n == data@.len(),
                out@ == headed + data@.subrange(start as int, i as int),
            decreases end - i,
        {
            out.push(data[i]);
            proof {
                assert(data@.subrange(start as int, i + 1) =~= data@.subrange(start as int, i as int).push(data@[i as int]));
            }
            i += 1;
        }
        push_text(out, "\x1b\\");
        proof {
            assert(out@ =~= before + (ascii(chunk_header(image_id.value(), start as int, more)) + data@.subrange(
                start as int,
                end as int,
            ) + ascii("\x1b\\"@)));
        }
        start = end;
    }
    assert(upload_from(image_id.value(), data@, start as nat) =~= Seq::<u8>::empty());
}


/// Transmit a PNG as image `id`: its base64 text in chunks, appended to `out`.
pub fn upload_png(image_id: ImageId, png: &[u8], out: &mut Vec<u8>)
    requires
        png@.len() <= usize::MAX / 2,
    ensures
        final(out)@ == old(out)@ + upload_from(image_id.value(), base64_standard(png@), 0),
{
    let encoded = encode_base64(png);
    upload_encoded(image_id, encoded.as_slice(), out);
}

/// What replacing the preview image writes: delete this preview's image,
/// transmit the PNG, and place it at `cell`; nothing for an empty cell rectangle.
pub open spec fn display_bytes(id: u32, png: Seq<u8>, cell: Rect, crop: Option<Crop>) -> Seq<u8> {
    if cell.width == 0 || cell.height == 0 {
        seq![]
    } else {
        ascii(delete_text(id)) + upload_from(id, base64_standard(png), 0) + ascii(place_text(id, cell, crop))
    }
}

/// Replace this preview instance's image and place it at its natural aspect
/// ratio, restricted to `crop` when given: append the commands to `out`.
pub fn display_png(image_id: ImageId, png: &[u8], cell: Rect, crop: Option<Crop>, out: &mut Vec<u8>)
    requires
        png@.len() <= usize::MAX / 2,
        cell.width > 0 && cell.height > 0 ==> cell.x < u16::MAX && cell.y < u16::MAX,
    ensures
        final(out)@ == old(out)@ + display_bytes(image_id.value(), png@, cell, crop),
{
    if cell.width == 0 || cell.height == 0 {
        assert(old(out)@ + display_bytes(image_id.value(), png@, cell, crop) =~= old(out)@);
        return;
    }
    delete_image(image_id, out);
    upload_png(image_id, png, out);
    place_image(image_id, cell, crop, out);
    assert(out@ =~= old(out)@ + display_bytes(image_id.value(), png@, cell, crop));
}

/// Whether the terminal is Kitty: a non-empty `KITTY_WINDOW_ID`, `TERM` of
/// `xterm-kitty`, or `TERM_PROGRAM` of `kitty` (which multiplexers such as
/// zellij leave intact when they rewrite `TERM`).
pub open spec fn kitty_detected(window_id: Option<Seq<char>>, term: Option<Seq<char>>, term_program: Option<Seq<char>>) -> bool {
    (window_id matches Some(w) && w.len() > 0) || term == Some("xterm-kitty"@) || term_program == Some("kitty"@)
}

pub open spec fn opt_str_view(o: Option<&str>) -> Option<Seq<char>> {
    match o {
        Some(s) => Some(s@),
        None => None,
    }
}

/// Whether these environment values identify Kitty (see `kitty_detected`).
pub fn is_available_with(kitty_window_id: Option<&str>, term: Option<&str>, term_program: Option<&str>) -> (r: bool)
    ensures
        r == kitty_detected(opt_str_view(kitty_window_id), opt_str_view(term), opt_str_view(term_program)),
{
    let window = match kitty_window_id {
        Some(id) => chars_of(id).len() > 0,
        None => false,
    };
    let kitty_term = match term {
        Some(t) => crate::text::same_text(t, "xterm-kitty"),
        None => false,
    };
    let kitty_program = match term_program {
        Some(p) => crate::text::same_text(p, "kitty"),
        None => false,
    };
    window || kitty_term || kitty_program
}


/// A placed cell rectangle stays inside the pane, so a non-empty one starts
/// before the last column and row.
pub proof fn lemma_placement_inside(pane: Rect, png: Seq<u8>, pan: (i32, i32), window: Option<WindowSize>)
    requires
        pane.x + pane.width <= u16::MAX,
        pane.y + pane.height <= u16::MAX,
    ensures
        ({
            let cell = png_placement(pane, png, pan, window).cell;
            cell.width > 0 && cell.height > 0 ==> cell.x < u16::MAX && cell.y < u16::MAX
        }),
{
    let pl = png_placement(pane, png, pan, window);
    if let (Some((w, h)), Some(t)) = (png_size(png), window) {
        if !(t.columns == 0 || t.rows == 0 || t.width == 0 || t.height == 0) {
            let cw = (t.width / t.columns) as u32;
            let ch = (t.height / t.rows) as u32;
            if cw > 0 && ch > 0 {
                let columns = span(w, cw, pane.width);
                let rows = span(h, ch, pane.height);
                assert(columns <= pane.width && rows <= pane.height);
                if columns > 0 {
                    assert((pane.width - columns) / 2 <= pane.width - 1);
                }
                if rows > 0 {
                    assert((pane.height - rows) / 2 <= pane.height - 1);
                }
            }
        }
    }
}

/// What re-placing an uploaded image writes (nothing for an empty cell rectangle).
pub open spec fn place_bytes(id: u32, cell: Rect, crop: Option<Crop>) -> Seq<u8> {
    if cell.width == 0 || cell.height == 0 {
        seq![]
    } else {
        ascii(place_text(id, cell, crop))
    }
}

} // verus!
