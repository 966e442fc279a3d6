//! GPU buffer bookkeeping: row alignment for texture readback, the
//! per-object geometry caps, and stripping row padding from read-back
//! pixels.
use vstd::prelude::*;
use vstd::string::*;

use crate::format::{decimal, decimal_string};

verus! {

/// Texture-to-buffer copies need rows aligned to this many bytes.
pub const COPY_BYTES_PER_ROW_ALIGNMENT: u32 = 256;

/// Per-object vertex cap.
pub const MAX_VERTICES_PER_OBJECT: u64 = 4096;

/// Per-object index cap.
pub const MAX_INDICES_PER_OBJECT: u64 = 16384;

/// Bytes per index.
pub const INDEX_BYTES: u64 = 4;

/// Bytes per stroke vertex: position, uv, width, joint angle and color, all
/// 32-bit.
pub const STROKE_VERTEX_BYTES: u64 = 40;

/// Bytes per fill vertex: a 2D position of two 32-bit values.
pub const FILL_VERTEX_BYTES: u64 = 8;

/// Byte size of each pipeline's index buffer.
pub const INDEX_BUFFER_SIZE: u64 = 65536;

/// Byte size of the stroke pipeline's vertex buffer.
pub const STROKE_VERTEX_BUFFER_SIZE: u64 = 163840;

/// Byte size of the fill pipeline's vertex buffer.
pub const FILL_VERTEX_BUFFER_SIZE: u64 = 32768;

/// The buffer sizes are the caps times the element sizes.
pub proof fn lemma_buffer_sizes()
    ensures
        INDEX_BUFFER_SIZE == MAX_INDICES_PER_OBJECT * INDEX_BYTES,
        STROKE_VERTEX_BUFFER_SIZE == MAX_VERTICES_PER_OBJECT * STROKE_VERTEX_BYTES,
        FILL_VERTEX_BUFFER_SIZE == MAX_VERTICES_PER_OBJECT * FILL_VERTEX_BYTES,
{
}

/// `v` rounded up to the next multiple of `align`.
pub open spec fn aligned_up(v: int, align: int) -> int {
    if v % align == 0 {
        v
    } else {
        v + align - v % align
    }
}

/// Round `v` up to a multiple of `align`.
pub fn align_up(v: u32, align: u32) -> (r: u32)
    requires
        align > 0,
        aligned_up(v as int, align as int) <= u32::MAX,
    ensures
        r == aligned_up(v as int, align as int),
        r % align == 0,
        v <= r < v + align,
        (r == v) == (v % align == 0),
{
    let rem = v % align;
    proof {
        assert((v + align - rem) % (align as int) == 0) by (nonlinear_arith)
            requires
                align > 0,
                rem == v % align,
        ;
    }
    if rem == 0 {
        v
    } else {
        v + (align - rem)
    }
}

/// Bytes per row of the read-back buffer for a `width`-pixel RGBA target,
/// and the buffer's total size for `height` rows.
pub fn readback_layout(width: u32, height: u32) -> (r: (u32, u64))
    requires
        width * 4 + 255 <= u32::MAX,
    ensures
        r.0 == aligned_up(width * 4, COPY_BYTES_PER_ROW_ALIGNMENT as int),
        r.0 % COPY_BYTES_PER_ROW_ALIGNMENT == 0,
        width * 4 <= r.0,
        r.1 == r.0 * height,
{
    assert(aligned_up(width * 4, 256) <= width * 4 + 255);
    let padded = align_up(width * 4, COPY_BYTES_PER_ROW_ALIGNMENT);
    assert((padded as u64) * (height as u64) <= u64::MAX) by (nonlinear_arith)
        requires
            padded <= u32::MAX,
            height <= u32::MAX,
    ;
    (padded, (padded as u64) * (height as u64))
}

/// Which buffer a geometry overflow concerns.
#[derive(Clone, Copy, Debug, PartialEq, Eq, Structural)]
pub enum GeometryKind {
    Vertex,
    Index,
}

impl GeometryKind {
    pub open spec fn spec_name(self) -> Seq<char> {
        match self {
            GeometryKind::Vertex => "vertex"@,
            GeometryKind::Index => "index"@,
        }
    }

    /// `"vertex"` or `"index"`.
    pub fn name(&self) -> (s: &'static str)
        ensures
            s@ == self.spec_name(),
    {
        match self {
            GeometryKind::Vertex => "vertex",
            GeometryKind::Index => "index",
        }
    }
}

/// A mesh needs more buffer bytes than a per-object cap allows.
#[derive(Clone, Copy, Debug, PartialEq, Eq, Structural)]
pub struct GeometryOverflow {
    pub kind: GeometryKind,
    pub needed: u64,
    pub cap: u64,
}

impl GeometryOverflow {
    pub open spec fn spec_message(self) -> Seq<char> {
        "geometry buffer overflow: "@ + self.kind.spec_name() + " needs "@ + decimal(
            self.needed as nat,
        ) + " bytes, have "@ + decimal(self.cap as nat)
    }

    /// Human-readable description of the overflow.
    pub fn message(&self) -> (s: String)
        ensures
            s@ == self.spec_message(),
    {
        let s = String::from_str("geometry buffer overflow: ");
        let s = s.concat(self.kind.name());
        let s = s.concat(" needs ");
        let s = s.concat(decimal_string(self.needed).as_str());
        let s = s.concat(" bytes, have ");
        s.concat(decimal_string(self.cap).as_str())
    }
}

/// Reject a mesh of `v_len` vertex bytes and `i_len` index bytes that does
/// not fit the vertex cap `vertex_cap` or the index buffer. The vertex cap
/// is checked first.
pub fn check_geometry_size(v_len: u64, i_len: u64, vertex_cap: u64) -> (r: Result<(), GeometryOverflow>)
    ensures
        v_len > vertex_cap ==> r == Err::<(), GeometryOverflow>(
            GeometryOverflow { kind: GeometryKind::Vertex, needed: v_len, cap: vertex_cap },
        ),
        v_len <= vertex_cap && i_len > INDEX_BUFFER_SIZE ==> r == Err::<(), GeometryOverflow>(
            GeometryOverflow { kind: GeometryKind::Index, needed: i_len, cap: INDEX_BUFFER_SIZE },
        ),
        v_len <= vertex_cap && i_len <= INDEX_BUFFER_SIZE ==> r == Ok::<(), GeometryOverflow>(()),
{
    if v_len > vertex_cap {
        return Err(GeometryOverflow { kind: GeometryKind::Vertex, needed: v_len, cap: vertex_cap });
    }
    if i_len > INDEX_BUFFER_SIZE {
        return Err(GeometryOverflow { kind: GeometryKind::Index, needed: i_len, cap: INDEX_BUFFER_SIZE });
    }
    Ok(())
}

/// The first `unpadded` bytes of each of the first `rows` rows of a buffer
/// whose rows are `padded` bytes apart, concatenated.
pub open spec fn stripped_rows(mapped: Seq<u8>, unpadded: int, padded: int, rows: nat) -> Seq<u8>
    decreases rows,
{
    if rows == 0 {
        Seq::empty()
    } else {
        let r = rows - 1;
        stripped_rows(mapped, unpadded, padded, r as nat) + mapped.subrange(
            r * padded,
            r * padded + unpadded,
        )
    }
}

proof fn lemma_stripped_rows(mapped: Seq<u8>, unpadded: int, padded: int, rows: nat)
    requires
        0 <= unpadded <= padded,
        rows == 0 || (rows - 1) * padded + unpadded <= mapped.len(),
    ensures
        stripped_rows(mapped, unpadded, padded, rows).len() == rows * unpadded,
        forall|r: int, c: int|
            0 <= r < rows && 0 <= c < unpadded ==> #[trigger] stripped_rows(
                mapped,
                unpadded,
                padded,
                rows,
            )[r * unpadded + c] == mapped[r * padded + c],
    decreases rows,
{
    if rows > 0 {
        let m = (rows - 1) as nat;
        assert(m == 0 || (m - 1) * padded + unpadded <= mapped.len()) by (nonlinear_arith)
            requires
                rows == m + 1,
                (rows - 1) * padded + unpadded <= mapped.len(),
                0 <= unpadded <= padded,
        ;
        assert(0 <= m * padded) by (nonlinear_arith)
            requires
                padded >= 0,
        ;
        lemma_stripped_rows(mapped, unpadded, padded, m);
        let prev = stripped_rows(mapped, unpadded, padded, m);
        let all = stripped_rows(mapped, unpadded, padded, rows);
        assert(rows * unpadded == m * unpadded + unpadded) by (nonlinear_arith)
            requires
                rows == m + 1,
        ;
        assert forall|r: int, c: int| 0 <= r < rows && 0 <= c < unpadded implies #[trigger] all[r
            * unpadded + c] == mapped[r * padded + c] by {
            if r < m {
                assert(r * unpadded + c < m * unpadded) by (nonlinear_arith)
                    requires
                        0 <= r < m,
                        0 <= c < unpadded,
                ;
                assert(0 <= r * unpadded) by (nonlinear_arith)
                    requires
                        0 <= r,
                        0 <= unpadded,
                ;
                assert(all[r * unpadded + c] == prev[r * unpadded + c]);
            } else {
                assert(r * unpadded + c - m * unpadded == c);
            }
        }
    }
}

/// Copy the tight pixel rows out of a read-back buffer whose rows are
/// `padded` bytes apart: `height` rows of `width * 4` bytes each.
pub fn strip_row_padding(mapped: &[u8], width: u32, height: u32, padded: u32) -> (out: Vec<u8>)
    requires
        width * 4 <= padded,
        height == 0 || (height - 1) * padded + width * 4 <= mapped@.len(),
    ensures
        out@ == stripped_rows(mapped@, width * 4, padded as int, height as nat),
        out@.len() == (width * 4) * height,
        forall|r: int, c: int|
            0 <= r < height && 0 <= c < width * 4 ==> #[trigger] out@[r * (width * 4) + c]
                == mapped@[r * padded + c],
{
    let unpadded: usize = (width as usize) * 4;
    let pad: usize = padded as usize;
    let mut out: Vec<u8> = Vec::new();
    let mut row: usize = 0;
    let rows: usize = height as usize;
    let mlen = mapped.len();
    while row < rows
        invariant
            mlen == mapped@.len(),
            rows == height,
            unpadded == width * 4,
            pad == padded,
            unpadded <= pad,
            height == 0 || (height - 1) * padded + width * 4 <= mapped@.len(),
            row <= rows,
            out@ == stripped_rows(mapped@, unpadded as int, pad as int, row as nat),
        decreases rows - row,
    {
        assert(row * pad + unpadded <= mapped@.len()) by (nonlinear_arith)
            requires
                row < rows,
                rows == height,
                (height - 1) * padded + width * 4 <= mapped@.len(),
                pad == padded,
                unpadded == width * 4,
                pad >= 0,
        ;
        let start: usize = row * pad;
        let chunk = &mapped[start..start + unpadded];
        out.extend_from_slice(chunk);
        proof {
            assert(out@ =~= stripped_rows(mapped@, unpadded as int, pad as int, (row + 1) as nat));
        }
        row = row + 1;
    }
    proof {
        lemma_stripped_rows(mapped@, unpadded as int, pad as int, rows as nat);
    }
    out
}

} // verus!
