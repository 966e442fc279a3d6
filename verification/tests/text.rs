use manim_rs::ir;
use manim_rs::text::{
    default_text_font, found_or_empty, ir_align, ir_weight, katex_file_name, katex_font, TextAlign,
    TextWeight,
};

#[test]
fn inter_regular_is_a_real_ttf() {
    let bytes = default_text_font();
    assert!(bytes.len() > 1024, "font is suspiciously small");
    assert_eq!(&bytes[0..4], &[0x00, 0x01, 0x00, 0x00]);
}

#[test]
fn katex_main_regular_resolves() {
    let bytes = katex_font("Main-Regular").expect("Main-Regular bundled");
    assert!(bytes.len() > 1024);
    assert_eq!(&bytes[0..4], &[0x00, 0x01, 0x00, 0x00]);
}

#[test]
fn unknown_katex_font_id_is_none() {
    assert!(katex_font("Bogus-Variant").is_none());
}

#[test]
fn all_known_katex_font_ids_resolve() {
    let ids = [
        "Main-Regular",
        "Main-Bold",
        "Main-Italic",
        "Main-BoldItalic",
        "Math-Italic",
        "Math-BoldItalic",
        "AMS-Regular",
        "Caligraphic-Regular",
        "Caligraphic-Bold",
        "Fraktur-Regular",
        "Fraktur-Bold",
        "SansSerif-Regular",
        "SansSerif-Bold",
        "SansSerif-Italic",
        "Script-Regular",
        "Typewriter-Regular",
        "Size1-Regular",
        "Size2-Regular",
        "Size3-Regular",
        "Size4-Regular",
    ];
    for id in ids {
        assert!(
            katex_font(id).is_some(),
            "katex_font({id:?}) returned None — RaTeX may have renamed a face"
        );
    }
}

#[test]
fn katex_file_name_wraps_the_id() {
    assert_eq!(katex_file_name("Math-Italic"), "KaTeX_Math-Italic.ttf");
    assert_eq!(katex_file_name(""), "KaTeX_.ttf");
}

#[test]
fn default_font_is_the_bundled_sans_face() {
    assert_eq!(Some(default_text_font()), katex_font("SansSerif-Regular"));
}

#[test]
fn scene_weights_and_alignments_map_one_to_one() {
    assert_eq!(ir_weight(ir::TextWeight::Regular), TextWeight::Regular);
    assert_eq!(ir_weight(ir::TextWeight::Bold), TextWeight::Bold);
    assert_eq!(ir_align(ir::TextAlign::Left), TextAlign::Left);
    assert_eq!(ir_align(ir::TextAlign::Center), TextAlign::Center);
    assert_eq!(ir_align(ir::TextAlign::Right), TextAlign::Right);
}

#[test]
fn missing_face_gives_no_bytes() {
    assert_eq!(found_or_empty(Some(vec![0, 1, 0, 0])), vec![0, 1, 0, 0]);
    assert!(found_or_empty(None).is_empty());
}
