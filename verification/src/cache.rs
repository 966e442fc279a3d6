//! Frame-cache keys and entries.
//!
//! A frame's cache key is the BLAKE3 hash of the canonical encoding of the
//! per-render constants followed by the encoding of the frame's state. An
//! entry lives in a file named after the key's hex digest; a stored entry
//! counts only when its length matches the frame size.
use vstd::prelude::*;
use vstd::string::*;

use crate::format::{hex_lower, hex_string};
use crate::ir::{TextAlign, TextWeight};

verus! {

/// Bumping this number invalidates every cache entry ever written.
pub const CACHE_KEY_VERSION: u32 = 1;

/// The BLAKE3 digest of `data`.
pub uninterp spec fn blake3_digest(data: Seq<u8>) -> Seq<u8>;

/// BLAKE3 over `first` followed by `second`, fed to one hasher in two
/// updates. The crate documents incremental updates as equivalent to one
/// update over the concatenated input; the contract states the digest as
/// that of the concatenation.
#[verifier::external_body]
fn blake3_two_part(first: &[u8], second: &[u8]) -> (r: [u8; 32])
    ensures
        r@ == blake3_digest(first@ + second@),
{
    let mut h = blake3::Hasher::new();
    h.update(first);
    h.update(second);
    h.finalize().into()
}

/// Cache key of a frame: the digest of the encoded per-render constants
/// followed by the encoded frame state.
pub fn frame_key(prefix: &[u8], state: &[u8]) -> (k: [u8; 32])
    ensures
        k@ == blake3_digest(prefix@ + state@),
{
    blake3_two_part(prefix, state)
}

/// Bytes hashed for a Tex compile-cache entry: the source's UTF-8 bytes,
/// then the color's four components as little-endian bytes. Scale and
/// macros are not part of the key.
pub open spec fn tex_key_bytes(src: Seq<u8>, color_le: Seq<u8>) -> Seq<u8> {
    src + color_le
}

/// Key of the compile cache for Tex source `src` drawn in the color whose
/// little-endian component bytes are `color_le`.
pub fn tex_compile_key(src: &str, color_le: &[u8; 16]) -> (k: [u8; 32])
    ensures
        k@ == blake3_digest(tex_key_bytes(src.spec_bytes(), color_le@)),
{
    blake3_two_part(src.as_bytes(), color_le.as_slice())
}

/// Tag byte of a text weight in a compile-cache key.
pub open spec fn weight_tag(w: TextWeight) -> u8 {
    match w {
        TextWeight::Regular => 0,
        TextWeight::Bold => 1,
    }
}

/// Tag byte of a text alignment in a compile-cache key.
pub open spec fn align_tag(a: TextAlign) -> u8 {
    match a {
        TextAlign::Left => 0,
        TextAlign::Center => 1,
        TextAlign::Right => 2,
    }
}

/// Bytes hashed for a Text compile-cache entry: source bytes; `0` for no
/// font or `1` followed by the font name's bytes; the weight tag; the
/// size's little-endian bytes; the color's little-endian component bytes;
/// the alignment tag. Per-instance transforms are not part of the key.
pub open spec fn text_key_bytes(
    src: Seq<u8>,
    font: Option<Seq<u8>>,
    weight: TextWeight,
    size_le: Seq<u8>,
    color_le: Seq<u8>,
    align: TextAlign,
) -> Seq<u8> {
    src + match font {
        None => seq![0u8],
        Some(f) => seq![1u8] + f,
    } + seq![weight_tag(weight)] + size_le + color_le + seq![align_tag(align)]
}

/// Key of the compile cache for a text object.
pub fn text_compile_key(
    src: &str,
    font: Option<&str>,
    weight: TextWeight,
    size_le: &[u8; 4],
    color_le: &[u8; 16],
    align: TextAlign,
) -> (k: [u8; 32])
    ensures
        k@ == blake3_digest(
            text_key_bytes(
                src.spec_bytes(),
                match font {
                    None => None,
                    Some(f) => Some(f.spec_bytes()),
                },
                weight,
                size_le@,
                color_le@,
                align,
            ),
        ),
{
    let mut bytes: Vec<u8> = Vec::new();
    bytes.extend_from_slice(src.as_bytes());
    match font {
        None => {
            bytes.push(0u8);
        },
        Some(f) => {
            bytes.push(1u8);
            bytes.extend_from_slice(f.as_bytes());
        },
    }
    let w: u8 = match weight {
        TextWeight::Regular => 0,
        TextWeight::Bold => 1,
    };
    bytes.push(w);
    bytes.extend_from_slice(size_le.as_slice());
    bytes.extend_from_slice(color_le.as_slice());
    let a: u8 = match align {
        TextAlign::Left => 0,
        TextAlign::Center => 1,
        TextAlign::Right => 2,
    };
    bytes.push(a);
    proof {
        let f = match font {
            None => None,
            Some(f) => Some(f.spec_bytes()),
        };
        let expected = text_key_bytes(src.spec_bytes(), f, weight, size_le@, color_le@, align);
        assert(bytes@ =~= expected);
        assert(bytes@ + Seq::<u8>::empty() =~= bytes@);
    }
    let empty: [u8; 0] = [];
    blake3_two_part(bytes.as_slice(), empty.as_slice())
}

/// The key bytes determine the font: two texts alike in everything but the
/// font (absent, or named differently) never share key bytes.
pub proof fn lemma_text_key_determines_font(
    src: Seq<u8>,
    font: Option<Seq<u8>>,
    other: Option<Seq<u8>>,
    weight: TextWeight,
    size_le: Seq<u8>,
    color_le: Seq<u8>,
    align: TextAlign,
)
    requires
        font != other,
    ensures
        text_key_bytes(src, font, weight, size_le, color_le, align) != text_key_bytes(
            src,
            other,
            weight,
            size_le,
            color_le,
            align,
        ),
{
    let a = text_key_bytes(src, font, weight, size_le, color_le, align);
    let b = text_key_bytes(src, other, weight, size_le, color_le, align);
    let n = src.len() as int;
    match (font, other) {
        (Some(f), Some(g)) => {
            if f.len() == g.len() {
                if forall|j: int| 0 <= j < f.len() ==> f[j] == g[j] {
                    assert(f =~= g);
                }
                let j = choose|j: int| 0 <= j < f.len() && f[j] != g[j];
                let fa = src + (seq![1u8] + f);
                let ga = src + (seq![1u8] + g);
                assert(fa[n + 1 + j] == f[j]);
                assert(ga[n + 1 + j] == g[j]);
                assert(a[n + 1 + j] == fa[n + 1 + j]);
                assert(b[n + 1 + j] == ga[n + 1 + j]);
            } else {
                assert(a.len() != b.len());
            }
        },
        (None, Some(g)) => {
            assert(a[n] == 0u8);
            assert(b[n] == 1u8);
        },
        (Some(f), None) => {
            assert(a[n] == 1u8);
            assert(b[n] == 0u8);
        },
        (None, None) => {},
    }
}

/// An absent font and an empty font name give different key bytes, so
/// they never share a compile-cache entry by construction of the key.
pub proof fn lemma_text_key_tags_font_presence(
    src: Seq<u8>,
    weight: TextWeight,
    size_le: Seq<u8>,
    color_le: Seq<u8>,
    align: TextAlign,
)
    ensures
        text_key_bytes(src, None, weight, size_le, color_le, align) != text_key_bytes(
            src,
            Some(Seq::empty()),
            weight,
            size_le,
            color_le,
            align,
        ),
{
    let a = text_key_bytes(src, None, weight, size_le, color_le, align);
    let b = text_key_bytes(src, Some(Seq::empty()), weight, size_le, color_le, align);
    assert(a[src.len() as int] == 0u8);
    assert(b[src.len() as int] == 1u8);
}

/// On-disk frame cache rooted at a directory.
#[derive(Clone, Debug)]
pub struct FrameCache {
    pub dir: String,
}

/// File name of the entry for `key`: its lowercase hex digest and `.rgba`.
pub open spec fn spec_entry_file_name(key: Seq<u8>) -> Seq<char> {
    hex_lower(key) + ".rgba"@
}

impl FrameCache {
    /// A cache rooted at `dir`.
    pub fn new(dir: String) -> (c: FrameCache)
        ensures
            c.dir == dir,
    {
        FrameCache { dir }
    }

    /// File name, inside the cache directory, of the entry for `key`.
    pub fn entry_file_name(&self, key: &[u8; 32]) -> (s: String)
        ensures
            s@ == spec_entry_file_name(key@),
    {
        let hex = hex_string(key.as_slice());
        hex.concat(".rgba")
    }

    /// Accept a stored entry only when it holds exactly `expected_len`
    /// bytes; a truncated or corrupted entry counts as a miss.
    pub fn accept_entry(&self, stored: Option<Vec<u8>>, expected_len: usize) -> (r: Option<Vec<u8>>)
        ensures
            match stored {
                Some(b) => if b@.len() == expected_len {
                    r == Some(b)
                } else {
                    r.is_none()
                },
                None => r.is_none(),
            },
    {
        match stored {
            Some(b) => if b.len() == expected_len {
                Some(b)
            } else {
                None
            },
            None => None,
        }
    }
}

/// Running counters of cache traffic during a render.
#[derive(Clone, Copy, Debug, PartialEq, Eq, Structural)]
pub struct CacheStats {
    pub hits: u64,
    pub misses: u64,
    pub write_errors: u64,
}

impl Default for CacheStats {
    /// All counters at zero.
    fn default() -> (s: CacheStats)
        ensures
            s.hits == 0 && s.misses == 0 && s.write_errors == 0,
    {
        CacheStats { hits: 0, misses: 0, write_errors: 0 }
    }
}

} // verus!
