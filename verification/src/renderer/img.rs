//! Image decode, terminal protocol choice, and half-block ANSI rendering.

use vstd::prelude::*;

use crate::chars::{from_chars, has_infix, contains_chars, to_chars};
use crate::renderer::text::{decimal, push_decimal};

verus! {

#[verifier::external_type_specification]
#[verifier::external_body]
pub struct ExDynamicImage(image::DynamicImage);

#[verifier::external_type_specification]
#[verifier::external_body]
pub struct ExImageError(image::ImageError);

/// Terminal graphics protocol supported by the current terminal.
#[derive(Debug, Clone, Copy, PartialEq, Eq, Structural)]
pub enum Protocol {
    /// Kitty graphics protocol — best quality, full color.
    Kitty,
    /// DEC Sixel — widely supported.
    Sixel,
    /// iTerm2 inline image protocol.
    ITerm2,
    /// Fallback: Unicode half-block characters via viuer.
    Block,
}

/// What the terminal's environment says: whether `KITTY_WINDOW_ID` and
/// `TERM_SIXEL` are set, and the values of `TERM` and `TERM_PROGRAM` (absent
/// when unset or not valid Unicode).
pub struct TermEnv {
    pub kitty_window_id: bool,
    pub term: Option<String>,
    pub term_program: Option<String>,
    pub term_sixel: bool,
}

pub open spec fn opt_is(o: Option<String>, s: Seq<char>) -> bool {
    match o {
        Some(v) => v@ == s,
        None => false,
    }
}

/// The protocol for a terminal environment, in the fallback order Kitty →
/// Sixel → iTerm2 → half blocks.
pub open spec fn protocol_spec(env: TermEnv) -> Protocol {
    let term: Seq<char> = match env.term {
        Some(t) => t@,
        None => Seq::empty(),
    };
    if env.kitty_window_id || opt_is(env.term, "xterm-kitty"@) {
        Protocol::Kitty
    } else if has_infix(term, "sixel"@) || term == "mlterm"@ || term == "yaft-256color"@ || env.term_sixel {
        Protocol::Sixel
    } else if opt_is(env.term_program, "iTerm.app"@) {
        Protocol::ITerm2
    } else {
        Protocol::Block
    }
}

fn opt_eq(o: &Option<String>, lit: &str) -> (b: bool)
    ensures
        b == opt_is(*o, lit@),
{
    match o {
        Some(v) => crate::chars::str_eq(v.as_str(), lit),
        None => false,
    }
}

/// Detect which graphics protocol the terminal supports, from its
/// environment variables only (no blocking terminal query).
/// Fallback order: Kitty → Sixel → iTerm2 → Block.
pub fn detect_protocol(env: &TermEnv) -> (p: Protocol)
    ensures
        p == protocol_spec(*env),
{
    if env.kitty_window_id || opt_eq(&env.term, "xterm-kitty") {
        return Protocol::Kitty;
    }
    let term = match &env.term {
        Some(t) => to_chars(t.as_str()),
        None => Vec::new(),
    };
    let sixel = to_chars("sixel");
    if contains_chars(term.as_slice(), sixel.as_slice()) || crate::chars::chars_eq(
        term.as_slice(),
        to_chars("mlterm").as_slice(),
    ) || crate::chars::chars_eq(term.as_slice(), to_chars("yaft-256color").as_slice()) || env.term_sixel {
        return Protocol::Sixel;
    }
    if opt_eq(&env.term_program, "iTerm.app") {
        return Protocol::ITerm2;
    }
    Protocol::Block
}

/// Why an image could not be shown.
pub struct ImageFailure {
    pub message: String,
}

/// The contents of an image: its colour type (the index of its
/// `DynamicImage` variant), its width, its height, then the bit pattern of
/// every sample in row order.
pub uninterp spec fn image_data(img: image::DynamicImage) -> Seq<u32>;

/// What `image::load_from_memory` makes of `bytes`: the contents of the
/// decoded image, or `None` when the format is not recognised or the bytes
/// do not decode.
pub uninterp spec fn decoded_image(bytes: Seq<u8>) -> Option<Seq<u32>>;

/// The contents of an image with contents `data` after
/// `DynamicImage::resize(w, h, FilterType::Triangle)`.
pub uninterp spec fn resized_image(data: Seq<u32>, w: u32, h: u32) -> Seq<u32>;

/// An image with contents `data` as 8-bit RGBA (`DynamicImage::to_rgba8`):
/// its width, its height and its pixels row by row, four bytes each.
pub uninterp spec fn rgba_of(data: Seq<u32>) -> (u32, u32, Seq<u8>);

/// `bytes` hold an image in a format that the image crate recognises and
/// decodes.
pub open spec fn image_decodes(bytes: Seq<u8>) -> bool {
    decoded_image(bytes) is Some
}

/// `image::load_from_memory`: guesses the format from the bytes and decodes
/// them; what it gives is named by `decoded_image`.
#[verifier::external_body]
fn load_image(bytes: &[u8]) -> (r: Result<image::DynamicImage, image::ImageError>)
    ensures
        r is Ok <==> decoded_image(bytes@) is Some,
        r matches Ok(img) ==> decoded_image(bytes@) == Some(image_data(img)),
{
    image::load_from_memory(bytes)
}

/// `DynamicImage::resize` with the triangle filter, named by
/// `resized_image`. As its documentation says, the aspect ratio is kept and
/// the new size is the largest that fits in `w` × `h`; the image's size is
/// the second and third entry of its contents.
#[verifier::external_body]
fn resize_image(img: &image::DynamicImage, w: u32, h: u32) -> (r: image::DynamicImage)
    ensures
        image_data(r) == resized_image(image_data(*img), w, h),
        w >= 1 && h >= 1 ==> image_data(r).len() >= 3 && image_data(r)[1] <= w && image_data(r)[2] <= h,
{
    img.resize(w, h, image::imageops::FilterType::Triangle)
}

/// `DynamicImage::to_rgba8`, then the buffer's width, height and raw pixels:
/// named by `rgba_of`. The conversion keeps the size, and the buffer holds
/// four bytes per pixel.
#[verifier::external_body]
fn rgba_pixels(img: &image::DynamicImage) -> (r: (u32, u32, Vec<u8>))
    ensures
        (r.0, r.1, r.2@) == rgba_of(image_data(*img)),
        r.2@.len() == r.0 as int * r.1 as int * 4,
        image_data(*img).len() >= 3 ==> r.0 == image_data(*img)[1] && r.1 == image_data(*img)[2],
{
    let rgba = img.to_rgba8();
    (rgba.width(), rgba.height(), rgba.into_raw())
}

/// Decode image bytes.
pub fn decode(bytes: &[u8]) -> (r: Result<image::DynamicImage, ImageFailure>)
    ensures
        r is Ok <==> image_decodes(bytes@),
        r matches Ok(img) ==> decoded_image(bytes@) == Some(image_data(img)),
{
    match load_image(bytes) {
        Ok(img) => Ok(img),
        Err(_) => Err(ImageFailure { message: "image decode failed".to_owned() }),
    }
}

/// The pixel at (`x`, `y`) of an RGBA buffer `w` pixels wide.
pub open spec fn pixel(raw: Seq<u8>, w: int, x: int, y: int) -> (u8, u8, u8, u8) {
    let o = (y * w + x) * 4;
    (raw[o], raw[o + 1], raw[o + 2], raw[o + 3])
}

/// One terminal cell for the pixels at (`x`, `y`) and (`x`, `y + 1`) (or the
/// top pixel twice on the last odd row): a blank when both are nearly
/// transparent, else `▀` with the top pixel as foreground and the bottom
/// one as background, in 24-bit colour.
pub open spec fn cell(raw: Seq<u8>, w: int, h: int, x: int, y: int) -> Seq<char> {
    let top = pixel(raw, w, x, y);
    let bot = if y + 1 < h {
        pixel(raw, w, x, y + 1)
    } else {
        top
    };
    if top.3 < 16 && bot.3 < 16 {
        seq![' ']
    } else {
        "\x1b[38;2;"@ + decimal(top.0 as nat) + seq![';'] + decimal(top.1 as nat) + seq![';'] + decimal(top.2 as nat)
            + ";48;2;"@ + decimal(bot.0 as nat) + seq![';'] + decimal(bot.1 as nat) + seq![';'] + decimal(
            bot.2 as nat,
        ) + "m▀"@
    }
}

/// The first `n` cells of the row of cells starting at pixel row `y`.
pub open spec fn row_cells(raw: Seq<u8>, w: int, h: int, y: int, n: int) -> Seq<char>
    decreases n,
{
    if n <= 0 {
        Seq::empty()
    } else {
        row_cells(raw, w, h, y, n - 1) + cell(raw, w, h, n - 1, y)
    }
}

/// The cell rows for pixel rows `0, 2, 4, …` below `y`, each ending with a
/// colour reset.
pub open spec fn rows_before(raw: Seq<u8>, w: int, h: int, y: int) -> Seq<Seq<char>>
    decreases y,
{
    if y <= 0 {
        Seq::empty()
    } else {
        let prev_y = if y % 2 == 0 { y - 2 } else { y - 1 };
        rows_before(raw, w, h, prev_y).push(row_cells(raw, w, h, prev_y, w) + "\x1b[0m"@)
    }
}

/// The half-block lines of an RGBA image `w` × `h`: one line per two pixel
/// rows.
pub open spec fn half_block_spec(raw: Seq<u8>, w: int, h: int) -> Seq<Seq<char>> {
    rows_before(raw, w, h, if h % 2 == 0 { h } else { h + 1 })
}

proof fn lemma_pixel_in_range(w: int, h: int, x: int, y: int)
    requires
        0 <= x < w,
        0 <= y < h,
    ensures
        (y * w + x) * 4 + 3 < w * h * 4,
        0 <= (y * w + x) * 4,
{
    assert(y * w + x < w * h) by (nonlinear_arith)
        requires
            0 <= x < w,
            0 <= y < h,
    ;
    assert(0 <= y * w) by (nonlinear_arith)
        requires
            0 <= y,
            0 <= w,
    ;
}

fn push_u8(out: &mut Vec<char>, v: u8)
    ensures
        final(out)@ == old(out)@ + decimal(v as nat),
{
    push_decimal(v as usize, out);
}

fn push_lit(out: &mut Vec<char>, s: &str)
    ensures
        final(out)@ == old(out)@ + s@,
{
    let cs = to_chars(s);
    crate::chars::append_chars(out, cs.as_slice());
}

#[verifier::rlimit(40)]
fn push_cell(out: &mut Vec<char>, raw: &Vec<u8>, w: usize, h: usize, x: usize, y: usize)
    requires
        raw@.len() == w * h * 4,
        x < w,
        y < h,
    ensures
        final(out)@ == old(out)@ + cell(raw@, w as int, h as int, x as int, y as int),
{
    let n = raw.len();
    proof {
        lemma_pixel_in_range(w as int, h as int, x as int, y as int);
        if y + 1 < h {
            lemma_pixel_in_range(w as int, h as int, x as int, (y + 1) as int);
        }
    }
    let o = (y * w + x) * 4;
    let (r0, g0, b0, a0) = (raw[o], raw[o + 1], raw[o + 2], raw[o + 3]);
    let (r1, g1, b1, a1) = if y + 1 < h {
        let o2 = ((y + 1) * w + x) * 4;
        (raw[o2], raw[o2 + 1], raw[o2 + 2], raw[o2 + 3])
    } else {
        (r0, g0, b0, a0)
    };
    if a0 < 16 && a1 < 16 {
        out.push(' ');
        return;
    }
    let ghost before = out@;
    push_lit(out, "\x1b[38;2;");
    push_u8(out, r0);
    out.push(';');
    push_u8(out, g0);
    out.push(';');
    push_u8(out, b0);
    push_lit(out, ";48;2;");
    push_u8(out, r1);
    out.push(';');
    push_u8(out, g1);
    out.push(';');
    push_u8(out, b1);
    push_lit(out, "m▀");
    assert(out@ =~= before + cell(raw@, w as int, h as int, x as int, y as int));
}

/// Convert RGBA pixels to ANSI half-block lines: each cell is `▀` (U+2580,
/// upper half block) with foreground = top pixel and background = bottom
/// pixel, so one terminal cell encodes two vertical image pixels.
pub fn half_block_lines(w: u32, h: u32, raw: &Vec<u8>) -> (lines: Vec<String>)
    requires
        raw@.len() == w as int * h as int * 4,
    ensures
        lines@.map_values(|l: String| l@) == half_block_spec(raw@, w as int, h as int),
{
    let wu = w as usize;
    let hu = h as usize;
    let mut lines: Vec<String> = Vec::new();
    let mut y: u64 = 0;
    while y < h as u64
        invariant
            wu == w as int,
            hu == h as int,
            raw@.len() == wu * hu * 4,
            y % 2 == 0,
            y <= hu + 1,
            lines@.map_values(|l: String| l@) == rows_before(raw@, wu as int, hu as int, y as int),
        decreases hu + 1 - y,
    {
        let yu = y as usize;
        let mut line: Vec<char> = Vec::new();
        let mut x: usize = 0;
        while x < wu
            invariant
                wu == w as int,
                hu == h as int,
                raw@.len() == wu * hu * 4,
                yu < hu,
                x <= wu,
                line@ == row_cells(raw@, wu as int, hu as int, yu as int, x as int),
            decreases wu - x,
        {
            push_cell(&mut line, raw, wu, hu, x, yu);
            x = x + 1;
        }
        push_lit(&mut line, "\x1b[0m");
        let ghost before = lines@.map_values(|l: String| l@);
        lines.push(from_chars(line.as_slice()));
        assert(lines@.map_values(|l: String| l@) =~= before.push(line@));
        y = y + 2;
        assert(rows_before(raw@, wu as int, hu as int, y as int) == before.push(line@));
    }
    lines
}

/// The pixel box that a cell box holds: at least one cell each way, two
/// pixels per cell vertically.
pub open spec fn pixel_box(max_cells_wide: u32, max_cells_tall: u32) -> (u32, u32) {
    (
        if max_cells_wide > 1 { max_cells_wide } else { 1 },
        ((if max_cells_tall > 1 { max_cells_tall } else { 1 }) * 2) as u32,
    )
}

/// The RGBA pixels that `to_ansi_lines` draws for `bytes`: the decoded image
/// scaled to fit the pixel box.
pub open spec fn ansi_source(bytes: Seq<u8>, max_cells_wide: u32, max_cells_tall: u32) -> (u32, u32, Seq<u8>) {
    let b = pixel_box(max_cells_wide, max_cells_tall);
    rgba_of(resized_image(decoded_image(bytes)->0, b.0, b.1))
}

/// Convert image bytes to ANSI half-block lines for inline display in any
/// terminal that supports 24-bit color. `max_cells_wide` and `max_cells_tall`
/// are upper bounds in terminal cells; the image is downscaled preserving its
/// aspect ratio (one cell is two pixels tall).
pub fn to_ansi_lines(bytes: &[u8], max_cells_wide: u32, max_cells_tall: u32) -> (r: Result<
    Vec<String>,
    ImageFailure,
>)
    requires
        max_cells_tall < 0x8000_0000,
    ensures
        r is Ok <==> image_decodes(bytes@),
        r matches Ok(lines) ==> {
            let px = ansi_source(bytes@, max_cells_wide, max_cells_tall);
            &&& lines@.map_values(|l: String| l@) == half_block_spec(px.2, px.0 as int, px.1 as int)
            &&& px.0 <= pixel_box(max_cells_wide, max_cells_tall).0
            &&& px.1 <= pixel_box(max_cells_wide, max_cells_tall).1
            &&& lines@.len() <= (if max_cells_tall > 1 { max_cells_tall } else { 1 })
        },
{
    let img = match decode(bytes) {
        Ok(i) => i,
        Err(e) => return Err(e),
    };
    let max_pix_w = if max_cells_wide > 1 { max_cells_wide } else { 1 };
    let max_pix_h = (if max_cells_tall > 1 { max_cells_tall } else { 1 }) * 2;
    let resized = resize_image(&img, max_pix_w, max_pix_h);
    let (w, h, raw) = rgba_pixels(&resized);
    let lines = half_block_lines(w, h, &raw);
    proof {
        law_half_block_shape(raw@, w as int, h as int);
    }
    Ok(lines)
}

proof fn lemma_rows_before(raw: Seq<u8>, w: int, h: int, y: int)
    requires
        y >= 0,
        y % 2 == 0,
    ensures
        rows_before(raw, w, h, y).len() == y / 2,
        forall|k: int| 0 <= k < y / 2 ==> has_reset_end(#[trigger] rows_before(raw, w, h, y)[k]),
    decreases y,
{
    reveal_strlit("\x1b[0m");
    if y > 0 {
        lemma_rows_before(raw, w, h, y - 2);
        let prev = rows_before(raw, w, h, y - 2);
        let r = rows_before(raw, w, h, y);
        assert forall|k: int| 0 <= k < y / 2 implies has_reset_end(#[trigger] r[k]) by {
            if k < prev.len() {
                assert(r[k] == prev[k]);
            } else {
                let line = row_cells(raw, w, h, y - 2, w) + "\x1b[0m"@;
                assert(r[k] == line);
                assert(line.subrange(line.len() - 4, line.len() as int) =~= "\x1b[0m"@);
            }
        }
    }
}

/// The line ends with the colour reset.
pub open spec fn has_reset_end(l: Seq<char>) -> bool {
    l.len() >= 4 && l.subrange(l.len() - 4, l.len() as int) == "\x1b[0m"@
}

/// An image `h` pixels tall gives one line per two pixel rows (rounded up),
/// each ending with the colour reset.
pub proof fn law_half_block_shape(raw: Seq<u8>, w: int, h: int)
    requires
        h >= 0,
    ensures
        half_block_spec(raw, w, h).len() == (h + 1) / 2,
        forall|k: int| 0 <= k < (h + 1) / 2 ==> has_reset_end(#[trigger] half_block_spec(raw, w, h)[k]),
{
    let y = if h % 2 == 0 { h } else { h + 1 };
    lemma_rows_before(raw, w, h, y);
    assert(y / 2 == (h + 1) / 2);
}

} // verus!
