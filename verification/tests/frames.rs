use manim_rs::encode::EncoderOptions;
use manim_rs::frames::{
    chunk_file_name, concat_list, plan_render, split_ranges, validate_frame_range, worker_count,
    InvalidFrameRange, RenderOptions, RenderPlan,
};

#[test]
fn split_ranges_spreads_remainder_over_first_chunks() {
    assert_eq!(split_ranges(10, 3), vec![(0, 4), (4, 7), (7, 10)]);
    assert_eq!(split_ranges(9, 3), vec![(0, 3), (3, 6), (6, 9)]);
}

#[test]
fn split_ranges_never_makes_empty_chunks() {
    assert_eq!(split_ranges(2, 8), vec![(0, 1), (1, 2)]);
    assert_eq!(split_ranges(0, 4), vec![(0, 0)]);
    assert_eq!(split_ranges(5, 0), vec![(0, 5)]);
}

#[test]
fn split_ranges_tiles_the_frames() {
    for total in [1u32, 7, 30, 31, 100] {
        for chunks in [1usize, 2, 3, 4, 16] {
            let r = split_ranges(total, chunks);
            assert_eq!(r[0].0, 0);
            assert_eq!(r[r.len() - 1].1, total);
            for w in r.windows(2) {
                assert_eq!(w[0].1, w[1].0);
            }
        }
    }
}

#[test]
fn split_ranges_is_balanced_longest_first() {
    for total in [1u32, 7, 30, 31, 100] {
        for chunks in [1usize, 2, 3, 4, 16] {
            let lens: Vec<u32> = split_ranges(total, chunks).iter().map(|(a, b)| b - a).collect();
            let c = lens.len() as u32;
            for w in lens.windows(2) {
                assert!(w[0] >= w[1]);
            }
            for l in &lens {
                assert!(*l == total / c || *l == total / c + 1);
                assert!(*l >= 1);
            }
        }
    }
}

#[test]
fn frame_range_must_fit_the_scene() {
    assert_eq!(validate_frame_range(0, 30, 30), Ok(30));
    assert_eq!(validate_frame_range(5, 5, 30), Ok(0));
    assert_eq!(
        validate_frame_range(6, 5, 30),
        Err(InvalidFrameRange { start: 6, end: 5, total: 30 })
    );
    let err = validate_frame_range(0, 31, 30).unwrap_err();
    assert_eq!(err.message(), "invalid frame range 0..31 for 30 total frames");
}

#[test]
fn worker_count_is_capped_and_positive() {
    assert_eq!(worker_count(8, 100, 4), 4);
    assert_eq!(worker_count(8, 3, 16), 3);
    assert_eq!(worker_count(0, 3, 16), 1);
    assert_eq!(worker_count(4, 0, 16), 1);
}

#[test]
fn render_plan_uses_chunks_only_when_useful() {
    assert_eq!(plan_render(1, 30, 8), RenderPlan::SinglePass { total: 30 });
    assert_eq!(plan_render(4, 0, 8), RenderPlan::SinglePass { total: 0 });
    assert_eq!(plan_render(4, 30, 1), RenderPlan::SinglePass { total: 30 });
    assert_eq!(
        plan_render(3, 30, 8),
        RenderPlan::Chunked { ranges: vec![(0, 10), (10, 20), (20, 30)] }
    );
}

#[test]
fn chunk_names_are_zero_padded() {
    assert_eq!(chunk_file_name(0), "chunk-000.mp4");
    assert_eq!(chunk_file_name(42), "chunk-042.mp4");
    assert_eq!(chunk_file_name(1234), "chunk-1234.mp4");
}

#[test]
fn concat_list_quotes_and_escapes_names() {
    let names = vec!["chunk-000.mp4".to_string(), "it's.mp4".to_string()];
    assert_eq!(
        concat_list(&names),
        "file 'chunk-000.mp4'\nfile 'it'\\''s.mp4'\n"
    );
    assert_eq!(concat_list(&vec![]), "");
}

#[test]
fn default_render_options_are_single_pass() {
    let o = RenderOptions::default();
    assert_eq!(o.workers, 0);
    assert_eq!(o.encoder, EncoderOptions::default());
}
