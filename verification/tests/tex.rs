use manim_rs::tex::{validate_tex, TexError};

#[test]
fn empty_source_is_valid_tex() {
    assert!(validate_tex("").is_ok());
}

#[test]
fn ordinary_formula_is_valid_tex() {
    assert!(validate_tex(r"\frac{a}{b} + x^2").is_ok());
}

#[test]
fn unbalanced_braces_are_rejected_with_a_message() {
    let err = validate_tex(r"\frac{a").unwrap_err();
    let TexError::Parse { message, .. } = &err;
    assert!(!message.is_empty());
    assert!(err.message().starts_with("Tex parse error"));
}

#[test]
fn tex_error_message_names_the_byte() {
    let e = TexError::Parse { message: "boom".to_string(), loc: Some(3) };
    assert_eq!(e.message(), "Tex parse error at byte 3: boom");
    let e = TexError::Parse { message: "boom".to_string(), loc: None };
    assert_eq!(e.message(), "Tex parse error: boom");
}

#[test]
fn empty_source_compiles() {
    assert!(validate_tex("").is_ok());
}

#[test]
fn unparseable_source_returns_error() {
    let err = validate_tex(r"\frac{a").unwrap_err();
    let TexError::Parse { message, .. } = err;
    assert!(!message.is_empty());
}

#[test]
fn parse_error_surfaces_as_err() {
    let result = validate_tex(r"\notacommand{");
    assert!(matches!(result, Err(TexError::Parse { .. })));
}
