use std::sync::atomic::AtomicU64;

use gph::render::{
    export_format, format_for_extension, next_svg_diagram_id_with, preview_fit_box, render_mermaid_svg, render_outcome, strip_bom,
    svg_diagram_id, svg_render_outcome, OutputFormat,
};

#[test]
fn svg_ids_are_unique_for_distinct_process_nonces_and_prefix_definitions() {
    let first = svg_diagram_id(0x1234_5678_90ab_cdef, 0);
    let second = svg_diagram_id(0xfedc_ba09_8765_4321, 0);

    assert_ne!(first, second);
    assert_ne!(
        format!("{first}-drop-shadow"),
        format!("{second}-drop-shadow")
    );
    assert_ne!(
        format!("{first}_flowchart-v2-pointEnd"),
        format!("{second}_flowchart-v2-pointEnd")
    );
}

#[test]
fn svg_ids_are_unique_within_a_process() {
    let sequence = AtomicU64::new(0);
    assert_ne!(
        next_svg_diagram_id_with(0x1234_5678_90ab_cdef, &sequence),
        next_svg_diagram_id_with(0x1234_5678_90ab_cdef, &sequence)
    );
}

#[test]
fn preview_fit_box_leaves_a_comfortable_margin() {
    assert_eq!(preview_fit_box(640, 480), (610, 450));
    // Keep preview rendering valid even in an unusually small terminal.
    assert_eq!(preview_fit_box(20, 20), (1, 1));
}

#[test]
fn svg_diagram_id_spells_nonce_and_sequence() {
    assert_eq!(svg_diagram_id(0xab, 42), "gph-svg-00000000000000ab-42");
    assert_eq!(svg_diagram_id(u64::MAX, 0), "gph-svg-ffffffffffffffff-0");
}

#[test]
fn the_sequence_advances_by_one_per_id() {
    let sequence = AtomicU64::new(7);
    assert_eq!(next_svg_diagram_id_with(1, &sequence), "gph-svg-0000000000000001-7");
    assert_eq!(next_svg_diagram_id_with(1, &sequence), "gph-svg-0000000000000001-8");
}

#[test]
fn fit_box_exact_values() {
    assert_eq!(preview_fit_box(31, 100), (1, 70));
    assert_eq!(preview_fit_box(0, 0), (1, 1));
    assert_eq!(preview_fit_box(u32::MAX, 30), (u32::MAX - 30, 1));
}

#[test]
fn bom_is_stripped_once() {
    assert_eq!(strip_bom("\u{feff}flowchart TD"), "flowchart TD");
    assert_eq!(strip_bom("\u{feff}\u{feff}x"), "\u{feff}x");
    assert_eq!(strip_bom("plain"), "plain");
}

#[test]
fn extensions_pick_formats_case_insensitively() {
    assert_eq!(format_for_extension("SVG"), Some(OutputFormat::Svg));
    assert_eq!(format_for_extension("png"), Some(OutputFormat::Png));
    assert_eq!(format_for_extension("jpg"), Some(OutputFormat::Jpeg));
    assert_eq!(format_for_extension("JPEG"), Some(OutputFormat::Jpeg));
    assert_eq!(format_for_extension("pdf"), Some(OutputFormat::Pdf));
    assert_eq!(format_for_extension("gif"), None);
    let _ = export_format;
}

const FLOWCHART: &str = "flowchart TD\n  A[Start] --> B[Done]\n";

#[test]
fn renders_svg() {
    let svg = render_mermaid_svg(FLOWCHART, "gph-test").unwrap();
    assert!(svg.starts_with("<svg"), "{svg}");
    assert!(svg.contains("Start"));
}

#[test]
fn renders_bom_prefixed_svg() {
    let svg = render_mermaid_svg(&format!("\u{feff}{FLOWCHART}"), "gph-test").unwrap();
    assert!(svg.starts_with("<svg"), "{svg}");
}

#[test]
fn rejects_non_diagrams() {
    let error = render_mermaid_svg("not Mermaid", "gph-test").unwrap_err();
    assert!(error.starts_with("render failed: "), "{error}");
}

#[test]
fn svg_render_outcome_reports_each_case() {
    assert_eq!(svg_render_outcome(Ok(Some("<svg/>".to_string()))), Ok("<svg/>".to_string()));
    assert_eq!(
        svg_render_outcome(Ok(None)),
        Err("render failed: no Mermaid diagram detected".to_string())
    );
    assert_eq!(svg_render_outcome(Err("bad".to_string())), Err("render failed: bad".to_string()));
}

#[test]
fn render_outcome_reports_raster_results() {
    assert_eq!(render_outcome(Ok(Some(vec![1u8, 2]))), Ok(vec![1u8, 2]));
    assert_eq!(
        render_outcome::<Vec<u8>>(Ok(None)),
        Err("render failed: no Mermaid diagram detected".to_string())
    );
    assert_eq!(render_outcome::<Vec<u8>>(Err("boom".to_string())), Err("render failed: boom".to_string()));
}
