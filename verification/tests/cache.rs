use manim_rs::cache::{
    frame_key, tex_compile_key, text_compile_key, CacheStats, FrameCache, CACHE_KEY_VERSION,
};
use manim_rs::ir::{TextAlign, TextWeight};

#[test]
fn key_stable_across_calls_with_identical_inputs() {
    let a = frame_key(b"{\"version\":1}", b"{\"objects\":[]}");
    let b = frame_key(b"{\"version\":1}", b"{\"objects\":[]}");
    assert_eq!(a, b);
}

#[test]
fn version_bump_changes_the_key() {
    let a = frame_key(b"{\"version\":1}", b"{\"objects\":[]}");
    let b = frame_key(b"{\"version\":2}", b"{\"objects\":[]}");
    assert_ne!(a, b);
}

#[test]
fn key_is_the_digest_of_prefix_then_state() {
    let k = frame_key(b"abc", b"def");
    assert_eq!(k, *blake3::hash(b"abcdef").as_bytes());
    assert_ne!(k, *blake3::hash(b"abc").as_bytes());
}

#[test]
fn entry_names_are_hex_digests() {
    let cache = FrameCache::new("cache".to_string());
    let key = [0xabu8; 32];
    let name = cache.entry_file_name(&key);
    assert_eq!(name, format!("{}.rgba", "ab".repeat(32)));
    let k = frame_key(b"", b"test key");
    assert_eq!(
        cache.entry_file_name(&k),
        format!("{}.rgba", blake3::hash(b"test key").to_hex())
    );
}

#[test]
fn get_rejects_size_mismatched_files() {
    let cache = FrameCache::new("cache".to_string());
    assert_eq!(cache.accept_entry(Some(vec![0u8; 16]), 16), Some(vec![0u8; 16]));
    assert_eq!(cache.accept_entry(Some(vec![0u8; 16]), 32), None);
    assert_eq!(cache.accept_entry(None, 16), None);
}

#[test]
fn stats_start_at_zero() {
    let s = CacheStats::default();
    assert_eq!((s.hits, s.misses, s.write_errors), (0, 0, 0));
    assert_eq!(CACHE_KEY_VERSION, 1);
}

#[test]
fn tex_key_covers_source_and_color_only() {
    let white = [0u8; 16];
    let mut red = [0u8; 16];
    red[0] = 1;
    let a = tex_compile_key("x^2", &white);
    assert_eq!(a, tex_compile_key("x^2", &white));
    assert_ne!(a, tex_compile_key("x^3", &white));
    assert_ne!(a, tex_compile_key("x^2", &red));
    let mut bytes = b"x^2".to_vec();
    bytes.extend_from_slice(&white);
    assert_eq!(a, *blake3::hash(&bytes).as_bytes());
}

#[test]
fn text_key_separates_absent_and_empty_font() {
    let size = 1.0f32.to_le_bytes();
    let color = [0u8; 16];
    let none = text_compile_key("Hi", None, TextWeight::Regular, &size, &color, TextAlign::Left);
    let empty = text_compile_key("Hi", Some(""), TextWeight::Regular, &size, &color, TextAlign::Left);
    assert_ne!(none, empty);
    let bold = text_compile_key("Hi", None, TextWeight::Bold, &size, &color, TextAlign::Left);
    assert_ne!(none, bold);
    let mut bytes = b"Hi".to_vec();
    bytes.push(0);
    bytes.push(0);
    bytes.extend_from_slice(&size);
    bytes.extend_from_slice(&color);
    bytes.push(0);
    assert_eq!(none, *blake3::hash(&bytes).as_bytes());
}
