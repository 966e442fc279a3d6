use manim_rs::buffers::{
    align_up, check_geometry_size, readback_layout, strip_row_padding, GeometryKind,
    GeometryOverflow, FILL_VERTEX_BUFFER_SIZE, INDEX_BUFFER_SIZE, STROKE_VERTEX_BUFFER_SIZE,
};

#[test]
fn align_up_rounds_correctly() {
    assert_eq!(align_up(0, 256), 0);
    assert_eq!(align_up(1, 256), 256);
    assert_eq!(align_up(256, 256), 256);
    assert_eq!(align_up(1920, 256), 2048);
    assert_eq!(align_up(2048, 256), 2048);
}

#[test]
fn align_up_result_is_a_multiple_not_below_input() {
    for v in [0u32, 3, 7, 8, 9, 100, 1023] {
        let r = align_up(v, 8);
        assert_eq!(r % 8, 0);
        assert!(r >= v && r < v + 8);
    }
}

#[test]
fn readback_layout_pads_rows_to_256_bytes() {
    // A 480-wide RGBA row is 1920 bytes, padded to 2048.
    assert_eq!(readback_layout(480, 270), (2048, 2048 * 270));
    assert_eq!(readback_layout(64, 2), (256, 512));
}

#[test]
fn geometry_within_caps_is_accepted() {
    assert_eq!(check_geometry_size(100, 100, STROKE_VERTEX_BUFFER_SIZE), Ok(()));
    assert_eq!(
        check_geometry_size(FILL_VERTEX_BUFFER_SIZE, INDEX_BUFFER_SIZE, FILL_VERTEX_BUFFER_SIZE),
        Ok(())
    );
}

#[test]
fn vertex_overflow_is_reported_first() {
    let err = check_geometry_size(STROKE_VERTEX_BUFFER_SIZE + 1, INDEX_BUFFER_SIZE + 1, STROKE_VERTEX_BUFFER_SIZE)
        .unwrap_err();
    assert_eq!(
        err,
        GeometryOverflow {
            kind: GeometryKind::Vertex,
            needed: STROKE_VERTEX_BUFFER_SIZE + 1,
            cap: STROKE_VERTEX_BUFFER_SIZE
        }
    );
    assert_eq!(err.kind.name(), "vertex");
}

#[test]
fn index_overflow_is_reported() {
    let err = check_geometry_size(8, 65540, STROKE_VERTEX_BUFFER_SIZE).unwrap_err();
    assert_eq!(err.kind, GeometryKind::Index);
    assert_eq!(err.cap, 65536);
    assert_eq!(
        err.message(),
        "geometry buffer overflow: index needs 65540 bytes, have 65536"
    );
}

#[test]
fn buffer_sizes_match_caps() {
    assert_eq!(INDEX_BUFFER_SIZE, 16384 * 4);
    assert_eq!(STROKE_VERTEX_BUFFER_SIZE, 4096 * 40);
    assert_eq!(FILL_VERTEX_BUFFER_SIZE, 4096 * 8);
}

#[test]
fn strip_row_padding_drops_row_tails() {
    // Two rows of one pixel, padded to 8 bytes per row.
    let mapped: Vec<u8> = vec![1, 2, 3, 4, 99, 99, 99, 99, 5, 6, 7, 8, 77, 77, 77, 77];
    let out = strip_row_padding(&mapped, 1, 2, 8);
    assert_eq!(out, vec![1, 2, 3, 4, 5, 6, 7, 8]);
}

#[test]
fn strip_row_padding_tolerates_short_last_row() {
    let mapped: Vec<u8> = vec![1, 2, 3, 4, 0, 0, 5, 6, 7, 8];
    let out = strip_row_padding(&mapped, 1, 2, 6);
    assert_eq!(out, vec![1, 2, 3, 4, 5, 6, 7, 8]);
}

#[test]
fn strip_row_padding_of_no_rows_is_empty() {
    assert!(strip_row_padding(&[], 4, 0, 256).is_empty());
}
