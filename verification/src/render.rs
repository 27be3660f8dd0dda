//! Output formats, preview geometry and diagram ids of the renderer.
use vstd::prelude::*;
use std::sync::atomic::{AtomicU64, Ordering};
use crate::text::{append_str, chars_of, decimal, push_str};
use vstd::arithmetic::power::pow;

verus! {

/// A file format that `gph render` can write.
#[derive(Clone, Copy, Debug, PartialEq, Eq, Structural)]
pub enum OutputFormat {
    Svg,
    Png,
    Jpeg,
    Pdf,
}

/// A raster format of the renderer.
#[derive(Clone, Copy, Debug, PartialEq, Eq, Structural)]
pub enum RasterFormat {
    Png,
    Jpeg,
    Pdf,
}

/// Clear space between a fitted preview diagram and the edge of its viewport.
pub const PREVIEW_EDGE_PADDING: u32 = 15;

/// The padded rectangle a default preview may occupy: `2 * PREVIEW_EDGE_PADDING`
/// less in each dimension, but never less than one pixel.
pub open spec fn fit_extent(v: u32) -> u32 {
    if v > 30 && v - 30 >= 1 {
        (v - 30) as u32
    } else {
        1
    }
}

pub fn preview_fit_box(width: u32, height: u32) -> (r: (u32, u32))
    ensures
        r == (fit_extent(width), fit_extent(height)),
{
    let inset = PREVIEW_EDGE_PADDING * 2;
    let w = width.saturating_sub(inset);
    let h = height.saturating_sub(inset);
    (if w > 1 { w } else { 1 }, if h > 1 { h } else { 1 })
}

/// The lowercase hexadecimal digit for `d < 16`.
pub open spec fn hex_char(d: nat) -> char {
    if d < 10 {
        ((48 + d) as u8) as char
    } else {
        ((87 + d) as u8) as char
    }
}

/// The last `count` hexadecimal digits of `n`, zero padded.
pub open spec fn hex_digits(n: nat, count: nat) -> Seq<char>
    decreases count,
{
    if count == 0 {
        seq![]
    } else {
        hex_digits(n / 16, (count - 1) as nat).push(hex_char(n % 16))
    }
}

/// `gph-svg-<nonce as 16 hex digits>-<sequence>`.
pub open spec fn svg_id_text(nonce: u64, sequence: u64) -> Seq<char> {
    "gph-svg-"@ + hex_digits(nonce as nat, 16) + "-"@ + decimal(sequence as nat)
}

fn push_hex(out: &mut Vec<char>, n: u64, count: usize)
    ensures
        final(out)@ == old(out)@ + hex_digits(n as nat, count as nat),
    decreases count,
{
    if count > 0 {
        push_hex(out, n / 16, count - 1);
        let d = (n % 16) as u8;
        let c = if d < 10 { (48u8 + d) as char } else { (87u8 + d) as char };
        out.push(c);
        assert(out@ =~= old(out)@ + hex_digits(n as nat, count as nat));
    }
}

fn push_decimal_u64(out: &mut Vec<char>, n: u64)
    ensures
        final(out)@ == old(out)@ + decimal(n as nat),
    decreases n,
{
    if n >= 10 {
        push_decimal_u64(out, n / 10);
    }
    let d: u8 = (n % 10) as u8;
    out.push((48u8 + d) as char);
    assert(out@ =~= old(out)@ + decimal(n as nat));
}

/// The SVG diagram id for a process nonce and a per-process sequence number.
pub fn svg_diagram_id(nonce: u64, sequence: u64) -> (r: String)
    ensures
        r@ == svg_id_text(nonce, sequence),
{
    let mut v = chars_of("gph-svg-");
    push_hex(&mut v, nonce, 16);
    let dash = chars_of("-");
    crate::text::push_all(&mut v, dash.as_slice());
    push_decimal_u64(&mut v, sequence);
    crate::text::string_of(v.as_slice())
}

/// The next SVG diagram id of a process: the nonce with the sequence's next number.
pub fn next_svg_diagram_id_with(nonce: u64, sequence: &AtomicU64) -> (r: String)
    ensures
        exists|n: u64| r@ == svg_id_text(nonce, n),
{
    let n = sequence.fetch_add(1, Ordering::Relaxed);
    let r = svg_diagram_id(nonce, n);
    assert(r@ == svg_id_text(nonce, n));
    r
}

/// A source without a leading byte order mark.
pub open spec fn without_bom(s: Seq<char>) -> Seq<char> {
    if s.len() > 0 && s[0] == '\u{feff}' {
        s.skip(1)
    } else {
        s
    }
}

pub fn strip_bom(source: &str) -> (r: String)
    ensures
        r@ == without_bom(source@),
{
    let v = chars_of(source);
    if v.len() > 0 && v[0] == '\u{feff}' {
        crate::text::string_of(crate::text::slice_chars(v.as_slice(), 1, v.len()).as_slice())
    } else {
        crate::text::string_of(v.as_slice())
    }
}

/// Calls merman's strict renderer (`merman::Renderer::render`) on an SVG request
/// for `source` whose diagram id is `diagram_id`: `Ok(Some(svg))` with the drawn
/// SVG, `Ok(None)` when merman finds no diagram to draw, or the `Display` text
/// of merman's error. What it draws, and on which sources it succeeds, is not
/// stated: that is merman's parser and layout.
#[verifier::external_body]
fn merman_svg(source: &str, diagram_id: &str) -> (r: Result<Option<String>, String>) {
    let mut request = merman::SvgRequest::default();
    request.options.diagram_id = Some(diagram_id.to_string());
    let renderer = merman::Renderer::new().with_parse_options(merman::ParseOptions::strict());
    match renderer.render(merman::RenderRequest::svg(source, merman::OperationControl::new(), request)) {
        Ok(merman::RenderOutput::Svg(Some(svg))) => Ok(Some(svg.into_parts().0)),
        Ok(_) => Ok(None),
        Err(error) => Err(format!("{error}")),
    }
}

/// What a render reports: what was drawn, a missing diagram as
/// `render failed: no Mermaid diagram detected`, and the renderer's error after
/// `render failed: `.
pub fn render_outcome<T>(rendered: Result<Option<T>, String>) -> (r: Result<T, String>)
    ensures
        match rendered {
            Ok(Some(x)) => r == Ok::<T, String>(x),
            Ok(None) => r matches Err(x) && x@ == "render failed: no Mermaid diagram detected"@,
            Err(e) => r matches Err(x) && x@ == "render failed: "@ + e@,
        },
{
    match rendered {
        Ok(Some(x)) => Ok(x),
        Ok(None) => Err("render failed: no Mermaid diagram detected".to_string()),
        Err(e) => {
            let mut msg = String::new();
            append_str(&mut msg, "render failed: ");
            let ev = chars_of(e.as_str());
            push_str(&mut msg, ev.as_slice());
            Err(msg)
        },
    }
}

/// What an SVG render reports: the SVG as drawn, a missing diagram as
/// `render failed: no Mermaid diagram detected`, and merman's error after
/// `render failed: `.
pub fn svg_render_outcome(rendered: Result<Option<String>, String>) -> (r: Result<String, String>)
    ensures
        match rendered {
            Ok(Some(s)) => r matches Ok(x) && x@ == s@,
            Ok(None) => r matches Err(x) && x@ == "render failed: no Mermaid diagram detected"@,
            Err(e) => r matches Err(x) && x@ == "render failed: "@ + e@,
        },
{
    render_outcome(rendered)
}

/// Render Mermaid `source` (a leading byte order mark dropped) to SVG with the
/// diagram id `diagram_id`; every error starts with `render failed: `.
pub fn render_mermaid_svg(source: &str, diagram_id: &str) -> (r: Result<String, String>)
    ensures
        r matches Err(x) ==> crate::text::starts_with(x@, "render failed: "@),
{
    let text = strip_bom(source);
    let r = svg_render_outcome(merman_svg(text.as_str(), diagram_id));
    proof {
        reveal_strlit("render failed: no Mermaid diagram detected");
        reveal_strlit("render failed: ");
        if r is Err {
            let x = r->Err_0;
            assert(x@.take("render failed: "@.len() as int) =~= "render failed: "@);
        }
    }
    r
}

/// ASCII lowercase of one character (`char::to_ascii_lowercase`).
pub open spec fn ascii_lower(c: char) -> char {
    if 'A' <= c && c <= 'Z' {
        ((c as u32) + 32) as char
    } else {
        c
    }
}

/// The format a file extension names, compared case-insensitively in ASCII.
pub open spec fn format_of_extension(ext: Seq<char>) -> Option<OutputFormat> {
    let lower = ext.map_values(|c: char| ascii_lower(c));
    if lower == "svg"@ {
        Some(OutputFormat::Svg)
    } else if lower == "png"@ {
        Some(OutputFormat::Png)
    } else if lower == "jpg"@ || lower == "jpeg"@ {
        Some(OutputFormat::Jpeg)
    } else if lower == "pdf"@ {
        Some(OutputFormat::Pdf)
    } else {
        None
    }
}

fn lower_char(c: char) -> (r: char)
    ensures
        r == ascii_lower(c),
{
    if 'A' <= c && c <= 'Z' {
        let b = (c as u32) as u8;
        (b + 32) as char
    } else {
        c
    }
}

pub fn equals_keyword(v: &Vec<char>, s: &str) -> (b: bool)
    ensures
        b == (v@ == s@),
{
    let w = chars_of(s);
    if v.len() != w.len() {
        return false;
    }
    let mut i: usize = 0;
    while i < v.len()
        invariant
            i <= v@.len() == w@.len(),
            w@ == s@,
            forall|k: int| 0 <= k < i ==> v@[k] == w@[k],
        decreases v@.len() - i,
    {
        if v[i] != w[i] {
            assert(v@[i as int] != w@[i as int]);
            return false;
        }
        i += 1;
    }
    assert(v@ =~= w@);
    true
}

/// The format a file extension names.
pub fn format_for_extension(ext: &str) -> (r: Option<OutputFormat>)
    ensures
        r == format_of_extension(ext@),
{
    let v = chars_of(ext);
    let mut lower: Vec<char> = Vec::new();
    let mut i: usize = 0;
    while i < v.len()
        invariant
            i <= v@.len(),
            lower@ == v@.take(i as int).map_values(|c: char| ascii_lower(c)),
        decreases v@.len() - i,
    {
        lower.push(lower_char(v[i]));
        proof {
            assert(v@.take(i + 1).map_values(|c: char| ascii_lower(c)) =~= v@.take(i as int).map_values(
                |c: char| ascii_lower(c),
            ).push(ascii_lower(v@[i as int])));
        }
        i += 1;
    }
    assert(v@.take(v@.len() as int) =~= v@);
    if equals_keyword(&lower, "svg") {
        Some(OutputFormat::Svg)
    } else if equals_keyword(&lower, "png") {
        Some(OutputFormat::Png)
    } else if equals_keyword(&lower, "jpg") || equals_keyword(&lower, "jpeg") {
        Some(OutputFormat::Jpeg)
    } else if equals_keyword(&lower, "pdf") {
        Some(OutputFormat::Pdf)
    } else {
        None
    }
}

/// The format of a file export: the requested one, else the one the output's
/// extension names; and `--scale` only for PNG and JPEG.
pub open spec fn export_format_spec(
    requested: Option<OutputFormat>,
    extension: Option<Seq<char>>,
    output: Seq<char>,
    scale_given: bool,
) -> Result<OutputFormat, Seq<char>> {
    let inferred = match requested {
        Some(f) => Some(f),
        None => match extension {
            Some(e) => format_of_extension(e),
            None => None,
        },
    };
    match inferred {
        None => Err("cannot infer a format from '"@ + output + "'; pass --format"@),
        Some(f) => if scale_given && (f == OutputFormat::Svg || f == OutputFormat::Pdf) {
            Err("--scale only applies to PNG and JPEG file exports"@)
        } else {
            Ok(f)
        },
    }
}

pub fn export_format(
    requested: Option<OutputFormat>,
    extension: Option<&str>,
    output: &str,
    scale_given: bool,
) -> (r: Result<OutputFormat, String>)
    ensures
        match r {
            Ok(f) => export_format_spec(
                requested,
                match extension { Some(e) => Some(e@), None => None },
                output@,
                scale_given,
            ) == Ok::<_, Seq<char>>(f),
            Err(e) => export_format_spec(
                requested,
                match extension { Some(e) => Some(e@), None => None },
                output@,
                scale_given,
            ) == Err::<OutputFormat, _>(e@),
        },
{
    let inferred = match requested {
        Some(f) => Some(f),
        None => match extension {
            Some(e) => format_for_extension(e),
            None => None,
        },
    };
    match inferred {
        None => {
            let mut s = String::new();
            append_str(&mut s, "cannot infer a format from '");
            append_str(&mut s, output);
            append_str(&mut s, "'; pass --format");
            Err(s)
        },
        Some(f) => {
            if scale_given && (f == OutputFormat::Svg || f == OutputFormat::Pdf) {
                let mut s = String::new();
                append_str(&mut s, "--scale only applies to PNG and JPEG file exports");
                Err(s)
            } else {
                Ok(f)
            }
        },
    }
}


proof fn lemma_hex_char_injective(a: nat, b: nat)
    requires
        a < 16,
        b < 16,
        hex_char(a) == hex_char(b),
    ensures
        a == b,
{
}

proof fn lemma_hex_digits_len(n: nat, count: nat)
    ensures
        hex_digits(n, count).len() == count,
    decreases count,
{
    if count > 0 {
        lemma_hex_digits_len(n / 16, (count - 1) as nat);
    }
}

proof fn lemma_hex_digits_injective(a: nat, b: nat, count: nat)
    requires
        a < pow(16, count),
        b < pow(16, count),
        hex_digits(a, count) == hex_digits(b, count),
    ensures
        a == b,
    decreases count,
{
    reveal(pow);
    if count == 0 {
        assert(pow(16, 0) == 1);
    } else {
        let p = pow(16, (count - 1) as nat);
        assert(pow(16, count) == 16 * p);
        lemma_hex_digits_len(a / 16, (count - 1) as nat);
        lemma_hex_digits_len(b / 16, (count - 1) as nat);
        let ha = hex_digits(a, count);
        assert(ha.last() == hex_char(a % 16));
        assert(hex_digits(b, count).last() == hex_char(b % 16));
        lemma_hex_char_injective(a % 16, b % 16);
        assert(ha.drop_last() =~= hex_digits(a / 16, (count - 1) as nat));
        assert(hex_digits(b, count).drop_last() =~= hex_digits(b / 16, (count - 1) as nat));
        assert(a / 16 < p) by (nonlinear_arith)
            requires
                a < 16 * p,
        ;
        assert(b / 16 < p) by (nonlinear_arith)
            requires
                b < 16 * p,
        ;
        lemma_hex_digits_injective(a / 16, b / 16, (count - 1) as nat);
        assert(a == 16 * (a / 16) + a % 16);
        assert(b == 16 * (b / 16) + b % 16);
    }
}

proof fn lemma_decimal_len(n: nat)
    ensures
        decimal(n).len() >= 1,
        n >= 10 ==> decimal(n).len() >= 2,
    decreases n,
{
    if n >= 10 {
        lemma_decimal_len(n / 10);
    }
}

proof fn lemma_decimal_injective(a: nat, b: nat)
    requires
        decimal(a) == decimal(b),
    ensures
        a == b,
    decreases a,
{
    lemma_decimal_len(a);
    lemma_decimal_len(b);
    if a < 10 && b < 10 {
        assert(decimal(a)[0] == crate::text::digit_char(a));
        assert(decimal(b)[0] == crate::text::digit_char(b));
    } else if a >= 10 && b >= 10 {
        assert(decimal(a).last() == crate::text::digit_char(a % 10));
        assert(decimal(b).last() == crate::text::digit_char(b % 10));
        assert(decimal(a).drop_last() =~= decimal(a / 10));
        assert(decimal(b).drop_last() =~= decimal(b / 10));
        lemma_decimal_injective(a / 10, b / 10);
    }
}

/// Distinct process nonces, or distinct sequence numbers, give distinct SVG
/// diagram ids, so the definitions that carry the id never collide.
pub proof fn law_svg_ids_distinct(n1: u64, s1: u64, n2: u64, s2: u64)
    requires
        n1 != n2 || s1 != s2,
    ensures
        svg_id_text(n1, s1) != svg_id_text(n2, s2),
{
    reveal_strlit("gph-svg-");
    reveal_strlit("-");
    let a = svg_id_text(n1, s1);
    let b = svg_id_text(n2, s2);
    lemma_hex_digits_len(n1 as nat, 16);
    lemma_hex_digits_len(n2 as nat, 16);
    if a == b {
        assert(a.subrange(8, 24) =~= hex_digits(n1 as nat, 16));
        assert(b.subrange(8, 24) =~= hex_digits(n2 as nat, 16));
        assert(pow(16, 16) == 0x1_0000_0000_0000_0000) by {
            reveal_with_fuel(pow, 17);
        }
        lemma_hex_digits_injective(n1 as nat, n2 as nat, 16);
        assert(a.skip(25) =~= decimal(s1 as nat));
        assert(b.skip(25) =~= decimal(s2 as nat));
        lemma_decimal_injective(s1 as nat, s2 as nat);
    }
}

/// `--scale` is refused exactly for the vector formats: given it, an export
/// whose format is PNG or JPEG keeps that format, one whose format is SVG or
/// PDF fails with the scale error, and a format that cannot be inferred fails
/// as it does without it.
pub proof fn law_scale_only_for_rasters(requested: Option<OutputFormat>, extension: Option<Seq<char>>, output: Seq<char>)
    ensures
        export_format_spec(requested, extension, output, false) matches Ok(f) ==> (f == OutputFormat::Png || f
            == OutputFormat::Jpeg ==> export_format_spec(requested, extension, output, true) == Ok::<
            OutputFormat,
            Seq<char>,
        >(f)),
        export_format_spec(requested, extension, output, false) matches Ok(f) ==> (f == OutputFormat::Svg || f
            == OutputFormat::Pdf ==> export_format_spec(requested, extension, output, true) == Err::<
            OutputFormat,
            Seq<char>,
        >("--scale only applies to PNG and JPEG file exports"@)),
        export_format_spec(requested, extension, output, true) matches Ok(f) ==> (f == OutputFormat::Png || f
            == OutputFormat::Jpeg) && export_format_spec(requested, extension, output, false) == Ok::<
            OutputFormat,
            Seq<char>,
        >(f),
        export_format_spec(requested, extension, output, false) is Err ==> export_format_spec(
            requested,
            extension,
            output,
            true,
        ) == export_format_spec(requested, extension, output, false),
{
}

} // verus!
