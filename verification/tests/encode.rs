use manim_rs::encode::{check_frame_size, copy_rows_into_plane, EncoderOptions, FrameSizeMismatch};

#[test]
fn frame_size_mismatch_reports_bytes() {
    let err = FrameSizeMismatch { expected: 100, got: 99 };
    assert!(err.message().contains("100"));
    assert!(err.message().contains("99"));
}

#[test]
fn frame_size_message_is_exact() {
    let err = FrameSizeMismatch { expected: 100, got: 99 };
    assert_eq!(err.message(), "frame size mismatch: expected 100 bytes, got 99");
}

#[test]
fn frames_of_the_right_size_pass() {
    assert_eq!(check_frame_size(16, 16, 1024), Ok(()));
    assert_eq!(
        check_frame_size(16, 16, 1023),
        Err(FrameSizeMismatch { expected: 1024, got: 1023 })
    );
}

#[test]
fn crf_is_rendered_in_decimal() {
    assert_eq!(EncoderOptions { crf: Some(18) }.crf_setting(), Some("18".to_string()));
    assert_eq!(EncoderOptions::default().crf_setting(), None);
}

#[test]
fn rows_land_at_stride_offsets() {
    let rgba: Vec<u8> = (1..=8).collect();
    let mut plane = vec![0u8; 12];
    copy_rows_into_plane(&mut plane, &rgba, 1, 2, 6);
    assert_eq!(plane, vec![1, 2, 3, 4, 0, 0, 5, 6, 7, 8, 0, 0]);
}

#[test]
fn tight_plane_is_a_straight_copy() {
    let rgba: Vec<u8> = (1..=8).collect();
    let mut plane = vec![9u8; 10];
    copy_rows_into_plane(&mut plane, &rgba, 1, 2, 4);
    assert_eq!(plane, vec![1, 2, 3, 4, 5, 6, 7, 8, 9, 9]);
}

#[test]
fn frame_size_mismatch_is_caught() {
    let bad = vec![0u8; 100];
    let err = check_frame_size(480, 270, bad.len()).expect_err("should have rejected");
    assert!(err.message().contains("mismatch"));
}
