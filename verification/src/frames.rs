//! Frame-range planning for renders: range validation, the split of a
//! render into per-worker chunks, chunk file names and the concat list
//! that stitches the chunks back together.
use vstd::prelude::*;
use vstd::string::*;

use crate::encode::EncoderOptions;
use crate::format::{decimal, decimal_string, zero_pad, zero_padded};

verus! {

/// A requested half-open frame range that does not fit the scene.
#[derive(Clone, Copy, Debug, PartialEq, Eq, Structural)]
pub struct InvalidFrameRange {
    pub start: u32,
    pub end: u32,
    pub total: u32,
}

impl InvalidFrameRange {
    pub open spec fn spec_message(self) -> Seq<char> {
        "invalid frame range "@ + decimal(self.start as nat) + ".."@ + decimal(self.end as nat)
            + " for "@ + decimal(self.total as nat) + " total frames"@
    }

    /// Human-readable description of the error.
    pub fn message(&self) -> (s: String)
        ensures
            s@ == self.spec_message(),
    {
        let s = String::from_str("invalid frame range ");
        let s = s.concat(decimal_string(self.start as u64).as_str());
        let s = s.concat("..");
        let s = s.concat(decimal_string(self.end as u64).as_str());
        let s = s.concat(" for ");
        let s = s.concat(decimal_string(self.total as u64).as_str());
        s.concat(" total frames")
    }
}

/// Check that `[start, end)` lies within `[0, total)`; on success return the
/// number of frames in the range.
pub fn validate_frame_range(start: u32, end: u32, total: u32) -> (r: Result<u32, InvalidFrameRange>)
    ensures
        (start <= end && end <= total) ==> r == Ok::<u32, InvalidFrameRange>((end - start) as u32),
        !(start <= end && end <= total) ==> r == Err::<u32, InvalidFrameRange>(
            InvalidFrameRange { start, end, total },
        ),
{
    if start > end || end > total {
        Err(InvalidFrameRange { start, end, total })
    } else {
        Ok(end - start)
    }
}

/// Number of chunks a render of `total` frames is split into when
/// `chunks` are asked for: never more than the frames, never fewer than one.
pub open spec fn chunk_count(total: u32, chunks: usize) -> int {
    let c = if chunks < total { chunks as int } else { total as int };
    if c < 1 {
        1
    } else {
        c
    }
}

/// Start of chunk `i` when `total` frames are split into `c` chunks: the
/// first `total % c` chunks get one extra frame.
pub open spec fn chunk_start(total: int, c: int, i: int) -> int {
    let base = total / c;
    let extra = total % c;
    i * base + if i < extra {
        i
    } else {
        extra
    }
}

/// Length of chunk `i` when `total` frames are split into `c` chunks.
pub open spec fn chunk_len(total: int, c: int, i: int) -> int {
    total / c + if i < total % c {
        1int
    } else {
        0int
    }
}

proof fn lemma_chunk_arith(total: int, c: int, i: int)
    requires
        c >= 1,
        total >= 0,
        0 <= i < c,
    ensures
        chunk_start(total, c, i + 1) == chunk_start(total, c, i) + chunk_len(total, c, i),
        0 <= chunk_start(total, c, i),
        chunk_start(total, c, i) + chunk_len(total, c, i) <= total,
{
    let base = total / c;
    let extra = total % c;
    assert(total == c * base + extra) by (nonlinear_arith)
        requires
            c >= 1,
            base == total / c,
            extra == total % c,
    ;
    assert(0 <= extra < c);
    assert(base >= 0) by (nonlinear_arith)
        requires
            c >= 1,
            total >= 0,
            base == total / c,
    ;
    assert((i + 1) * base == i * base + base) by (nonlinear_arith);
    assert(i * base >= 0) by (nonlinear_arith)
        requires
            i >= 0,
            base >= 0,
    ;
    assert((i + 1) * base <= c * base) by (nonlinear_arith)
        requires
            i + 1 <= c,
            base >= 0,
    ;
}

/// The chunks tile `[0, total)`: the first starts at zero, the last ends at
/// `total`, and each starts where the previous one ended.
pub proof fn lemma_chunks_tile(total: int, c: int)
    requires
        c >= 1,
        total >= 0,
    ensures
        chunk_start(total, c, 0) == 0,
        chunk_start(total, c, c) == total,
        forall|i: int|
            0 <= i < c ==> #[trigger] chunk_start(total, c, i + 1) == chunk_start(total, c, i)
                + chunk_len(total, c, i),
{
    let base = total / c;
    let extra = total % c;
    assert(total == c * base + extra) by (nonlinear_arith)
        requires
            c >= 1,
            base == total / c,
            extra == total % c,
    ;
    assert(0 * base == 0) by (nonlinear_arith);
    assert forall|i: int| 0 <= i < c implies #[trigger] chunk_start(total, c, i + 1) == chunk_start(
        total,
        c,
        i,
    ) + chunk_len(total, c, i) by {
        lemma_chunk_arith(total, c, i);
    }
}

/// The frames are spread as evenly as possible: every chunk holds
/// `total / c` or one more frame, longer chunks come first, and with no
/// more chunks than frames no chunk is empty.
pub proof fn lemma_chunks_balanced(total: int, c: int)
    requires
        c >= 1,
        total >= 0,
    ensures
        forall|i: int| 0 <= i < c ==> total / c <= #[trigger] chunk_len(total, c, i) <= total / c + 1,
        forall|i: int, j: int|
            0 <= i < j < c ==> #[trigger] chunk_len(total, c, i) >= #[trigger] chunk_len(total, c, j),
        c <= total ==> forall|i: int| 0 <= i < c ==> #[trigger] chunk_len(total, c, i) >= 1,
{
    if c <= total {
        assert(total / c >= 1) by (nonlinear_arith)
            requires
                1 <= c <= total,
        ;
    }
}

/// Split `total` frames into contiguous half-open ranges, one per chunk.
/// The chunk count is `chunks` capped at `total` and raised to one; the
/// frames are spread as evenly as possible, earlier chunks taking the
/// remainder one frame each.
pub fn split_ranges(total: u32, chunks: usize) -> (out: Vec<(u32, u32)>)
    ensures
        out@.len() == chunk_count(total, chunks),
        forall|i: int|
            0 <= i < out@.len() ==> (#[trigger] out@[i]).0 == chunk_start(
                total as int,
                chunk_count(total, chunks),
                i,
            ) && out@[i].1 == out@[i].0 + chunk_len(total as int, chunk_count(total, chunks), i),
        out@[0].0 == 0,
        out@[out@.len() - 1].1 == total,
        forall|i: int| 0 <= i < out@.len() - 1 ==> (#[trigger] out@[i]).1 == out@[i + 1].0,
{
    let c0: usize = if chunks < total as usize {
        chunks
    } else {
        total as usize
    };
    let c: usize = if c0 < 1 {
        1
    } else {
        c0
    };
    assert(c as int == chunk_count(total, chunks));
    let c32: u32 = c as u32;
    let base = total / c32;
    let extra = total % c32;
    let mut out: Vec<(u32, u32)> = Vec::new();
    let mut start: u32 = 0;
    let mut idx: u32 = 0;
    proof {
        lemma_chunks_tile(total as int, c as int);
    }
    while idx < c32
        invariant
            c32 == c,
            c as int == chunk_count(total, chunks),
            c >= 1,
            base == total / c32,
            extra == total % c32,
            idx <= c32,
            out@.len() == idx,
            start == chunk_start(total as int, c as int, idx as int),
            forall|i: int|
                0 <= i < idx ==> (#[trigger] out@[i]).0 == chunk_start(total as int, c as int, i)
                    && out@[i].1 == out@[i].0 + chunk_len(total as int, c as int, i),
        decreases c32 - idx,
    {
        proof {
            lemma_chunk_arith(total as int, c as int, idx as int);
        }
        let len = base + if idx < extra {
            1u32
        } else {
            0u32
        };
        let end = start + len;
        out.push((start, end));
        start = end;
        idx = idx + 1;
    }
    proof {
        lemma_chunks_tile(total as int, c as int);
        assert forall|i: int| 0 <= i < out@.len() - 1 implies (#[trigger] out@[i]).1 == out@[i
            + 1].0 by {
            assert(chunk_start(total as int, c as int, i + 1) == chunk_start(total as int, c as int, i)
                + chunk_len(total as int, c as int, i));
        }
        assert(chunk_start(total as int, c as int, (c - 1) + 1) == chunk_start(
            total as int,
            c as int,
            c - 1,
        ) + chunk_len(total as int, c as int, c - 1));
    }
    out
}

/// How many local workers a chunked render uses: the requested count,
/// capped by the frame count and the machine's parallelism, at least one.
pub open spec fn spec_worker_count(workers: usize, total: u32, local_cap: usize) -> int {
    let a = if workers < total { workers as int } else { total as int };
    let b = if a < local_cap { a } else { local_cap as int };
    if b < 1 {
        1
    } else {
        b
    }
}

/// The worker count is the smallest of the requested workers, the frames
/// and the machine's parallelism, raised to one: never more than any of the
/// three unless it is one, at least one of the three, and at least one.
pub proof fn lemma_worker_count_is_capped_minimum(workers: usize, total: u32, local_cap: usize)
    ensures
        spec_worker_count(workers, total, local_cap) >= 1,
        spec_worker_count(workers, total, local_cap) <= workers || spec_worker_count(
            workers,
            total,
            local_cap,
        ) == 1,
        spec_worker_count(workers, total, local_cap) <= total || spec_worker_count(
            workers,
            total,
            local_cap,
        ) == 1,
        spec_worker_count(workers, total, local_cap) <= local_cap || spec_worker_count(
            workers,
            total,
            local_cap,
        ) == 1,
        spec_worker_count(workers, total, local_cap) == workers || spec_worker_count(
            workers,
            total,
            local_cap,
        ) == total || spec_worker_count(workers, total, local_cap) == local_cap
            || spec_worker_count(workers, total, local_cap) == 1,
        spec_worker_count(workers, total, local_cap) >= workers || spec_worker_count(
            workers,
            total,
            local_cap,
        ) >= total || spec_worker_count(workers, total, local_cap) >= local_cap,
{
}

/// Number of workers for a chunked render: the least of `workers`,
/// `total` and `local_cap`, but at least one.
pub fn worker_count(workers: usize, total: u32, local_cap: usize) -> (n: usize)
    ensures
        n == spec_worker_count(workers, total, local_cap),
        n >= 1,
        n <= workers || n == 1,
        n <= total || n == 1,
        n <= local_cap || n == 1,
        n == workers || n == total || n == local_cap || n == 1,
        n >= workers || n >= total || n >= local_cap,
{
    let a: usize = if workers < total as usize {
        workers
    } else {
        total as usize
    };
    let b: usize = if a < local_cap {
        a
    } else {
        local_cap
    };
    if b < 1 {
        1
    } else {
        b
    }
}

/// Render configuration: encoder knobs and the number of local workers.
#[derive(Clone, Copy, Debug, PartialEq, Eq, Structural)]
pub struct RenderOptions {
    pub encoder: EncoderOptions,
    /// Number of frame-range workers; `0` and `1` both mean a single pass.
    pub workers: usize,
}

impl Default for RenderOptions {
    /// Default encoder knobs and a single pass.
    fn default() -> (o: RenderOptions)
        ensures
            o.encoder.crf.is_none(),
            o.workers == 0,
    {
        RenderOptions { encoder: EncoderOptions { crf: None }, workers: 0 }
    }
}

/// How a whole-scene render is carried out.
#[derive(Clone, Debug, PartialEq, Eq)]
pub enum RenderPlan {
    /// One pass over `[0, total)`.
    SinglePass { total: u32 },
    /// One worker per range; the ranges are rendered separately and
    /// concatenated in order.
    Chunked { ranges: Vec<(u32, u32)> },
}

/// Decide how to render `total` frames given the requested worker count
/// and the machine's parallelism: a single pass unless more than one
/// worker is both requested and usable, else one chunk per worker.
pub fn plan_render(workers: usize, total: u32, local_cap: usize) -> (p: RenderPlan)
    ensures
        (workers <= 1 || total == 0 || spec_worker_count(workers, total, local_cap) == 1) ==> p
            == (RenderPlan::SinglePass { total }),
        !(workers <= 1 || total == 0 || spec_worker_count(workers, total, local_cap) == 1) ==> (
        match p {
            RenderPlan::Chunked { ranges } => ranges@.len() == spec_worker_count(
                workers,
                total,
                local_cap,
            ) && ranges@[0].0 == 0 && ranges@[ranges@.len() - 1].1 == total && (forall|i: int|
                0 <= i < ranges@.len() - 1 ==> (#[trigger] ranges@[i]).1 == ranges@[i + 1].0)
                && (forall|i: int|
                0 <= i < ranges@.len() ==> (#[trigger] ranges@[i]).0 == chunk_start(
                    total as int,
                    ranges@.len() as int,
                    i,
                ) && ranges@[i].1 == ranges@[i].0 + chunk_len(total as int, ranges@.len() as int, i)),
            RenderPlan::SinglePass { .. } => false,
        }),
{
    if workers <= 1 || total == 0 {
        return RenderPlan::SinglePass { total };
    }
    let n = worker_count(workers, total, local_cap);
    if n == 1 {
        return RenderPlan::SinglePass { total };
    }
    let ranges = split_ranges(total, n);
    assert(chunk_count(total, n) == n);
    RenderPlan::Chunked { ranges }
}

/// File name of chunk `idx`: `chunk-` then the index padded to three
/// digits, then `.mp4`.
pub open spec fn spec_chunk_file_name(idx: nat) -> Seq<char> {
    "chunk-"@ + zero_padded(decimal(idx), 3) + ".mp4"@
}

/// File name under which chunk `idx` is written.
pub fn chunk_file_name(idx: usize) -> (s: String)
    ensures
        s@ == spec_chunk_file_name(idx as nat),
{
    let digits = zero_pad(decimal_string(idx as u64), 3);
    let s = String::from_str("chunk-");
    let s = s.concat(digits.as_str());
    s.concat(".mp4")
}

/// `name` with every single quote written as `'\''`, the escape the concat
/// list's single-quoted strings use.
pub open spec fn quote_escaped(name: Seq<char>) -> Seq<char>
    decreases name.len(),
{
    if name.len() == 0 {
        Seq::empty()
    } else {
        quote_escaped(name.drop_last()) + if name.last() == '\'' {
            seq!['\'', '\\', '\'', '\'']
        } else {
            seq![name.last()]
        }
    }
}

/// One line of the concat list: `file '<escaped name>'` and a newline.
pub open spec fn concat_line(name: Seq<char>) -> Seq<char> {
    "file '"@ + quote_escaped(name) + "'\n"@
}

/// The concat list for chunk files named `names`, one line per chunk in
/// order.
pub open spec fn concat_list_text(names: Seq<Seq<char>>) -> Seq<char>
    decreases names.len(),
{
    if names.len() == 0 {
        Seq::empty()
    } else {
        concat_list_text(names.drop_last()) + concat_line(names.last())
    }
}

fn escape_quotes(name: &str) -> (s: String)
    ensures
        s@ == quote_escaped(name@),
{
    let len = name.unicode_len();
    let mut out = String::new();
    let mut i: usize = 0;
    while i < len
        invariant
            len == name@.len(),
            i <= len,
            out@ == quote_escaped(name@.take(i as int)),
        decreases len - i,
    {
        let c = name.get_char(i);
        let ghost t = name@.take(i + 1);
        assert(t.drop_last() =~= name@.take(i as int));
        assert(t.last() == c);
        if c == '\'' {
            proof {
                reveal_strlit("'\\''");
            }
            out.append("'\\''");
            assert(out@ =~= quote_escaped(t));
        } else {
            let piece = name.substring_char(i, i + 1);
            out.append(piece);
            assert(out@ =~= quote_escaped(t));
        }
        i = i + 1;
    }
    assert(name@.take(len as int) =~= name@);
    out
}

/// Write the concat list for the chunk files `names`.
pub fn concat_list(names: &Vec<String>) -> (s: String)
    ensures
        s@ == concat_list_text(names@.map_values(|n: String| n@)),
{
    let mut out = String::new();
    let mut i: usize = 0;
    let ghost all = names@.map_values(|n: String| n@);
    while i < names.len()
        invariant
            i <= names@.len(),
            all == names@.map_values(|n: String| n@),
            out@ == concat_list_text(all.take(i as int)),
        decreases names@.len() - i,
    {
        let escaped = escape_quotes(names[i].as_str());
        out.append("file '");
        out.append(escaped.as_str());
        out.append("'\n");
        proof {
            let t = all.take(i + 1);
            assert(t.drop_last() =~= all.take(i as int));
            assert(t.last() == names@[i as int]@);
            assert(out@ =~= concat_list_text(t));
        }
        i = i + 1;
    }
    assert(all.take(names@.len() as int) =~= all);
    out
}

} // verus!
