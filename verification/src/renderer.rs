use vstd::prelude::*;

verus! {

use vstd::multiset::Multiset;

/// One finished chunk of the image: the half-open pixel index range it
/// covers and the colors computed for it, one per pixel, in index order.
pub struct RenderedPixels<T> {
    pub range: (usize, usize),
    pub pixels: Vec<T>,
}

/// Length of chunk `i` when a total of `total` pixels is divided into
/// `chunks` near-equal contiguous pieces: every chunk gets `total / chunks`
/// pixels, and the remainder is handed out one pixel each to the first
/// chunks.
pub open spec fn chunk_len(total: int, chunks: int, i: int) -> int
    recommends
        chunks > 0,
{
    total / chunks + if i < total % chunks {
        1int
    } else {
        0int
    }
}

/// How many of the first `i` chunks carry one extra pixel.
spec fn extra_before(i: int, remainder: int) -> int {
    if i < remainder {
        i
    } else {
        remainder
    }
}

/// Partitions the pixel index range `[start, end)` into `chunks` contiguous
/// half-open ranges of near-equal length, in order: chunk `i` has
/// `chunk_len(end - start, chunks, i)` pixels, so any remainder goes one
/// pixel apiece to the first chunks.
pub fn get_ranges(start: usize, end: usize, chunks: usize) -> (ranges: Vec<(usize, usize)>)
    requires
        start < end,
        chunks > 0,
    ensures
        ranges@.len() == chunks,
        ranges@[0].0 == start,
        ranges@[chunks - 1].1 == end,
        forall|i: int| 0 <= i < chunks ==> start <= #[trigger] ranges@[i].0 <= ranges@[i].1 <= end,
        forall|i: int| 0 <= i < chunks - 1 ==> #[trigger] ranges@[i].1 == ranges@[i + 1].0,
        forall|i: int|
            0 <= i < chunks ==> ranges@[i].1 - #[trigger] ranges@[i].0 == chunk_len(
                end - start,
                chunks as int,
                i,
            ),
{
    let total = end - start;
    let chunk_size = total / chunks;
    let remainder = total % chunks;

    proof {
        vstd::arithmetic::div_mod::lemma_fundamental_div_mod(total as int, chunks as int);
        assert(0 <= total % chunks < chunks && 0 <= total / chunks) by (nonlinear_arith)
            requires
                chunks > 0,
                total >= 0,
        ;
    }

    let mut ranges: Vec<(usize, usize)> = Vec::new();
    let mut current_start = start;
    let mut i: usize = 0;

    while i < chunks
        invariant
            0 < chunks,
            start < end,
            total == end - start,
            chunk_size == total as int / chunks as int,
            remainder == total as int % chunks as int,
            total == chunks * chunk_size + remainder,
            0 <= remainder < chunks,
            i <= chunks,
            ranges@.len() == i,
            current_start - start == i * chunk_size + extra_before(i as int, remainder as int),
            current_start <= end,
            i > 0 ==> ranges@[0].0 == start,
            i > 0 ==> ranges@[i - 1].1 == current_start,
            i == 0 ==> current_start == start,
            forall|m: int| 0 <= m < i ==> start <= #[trigger] ranges@[m].0 <= ranges@[m].1 <= end,
            forall|m: int| 0 <= m < i - 1 ==> #[trigger] ranges@[m].1 == ranges@[m + 1].0,
            forall|m: int|
                0 <= m < i ==> ranges@[m].1 - #[trigger] ranges@[m].0 == chunk_len(
                    total as int,
                    chunks as int,
                    m,
                ),
        decreases chunks - i,
    {
        let additional: usize = if i < remainder {
            1
        } else {
            0
        };

        proof {
            vstd::arithmetic::mul::lemma_mul_is_distributive_add_other_way(
                chunk_size as int,
                i as int,
                1,
            );
            vstd::arithmetic::mul::lemma_mul_inequality(
                i as int + 1,
                chunks as int,
                chunk_size as int,
            );
            assert(current_start + chunk_size + additional <= end);
        }

        let current_end = current_start + chunk_size + additional;
        ranges.push((current_start, current_end));
        current_start = current_end;
        i = i + 1;
    }

    proof {
        assert(current_start == end);
    }

    ranges
}

/// With at least as many pixels as chunks, every chunk is non-empty: each
/// range produced by `get_ranges` then covers at least one pixel.
pub proof fn lemma_chunks_nonempty(total: int, chunks: int, i: int)
    requires
        chunks > 0,
        total >= chunks,
        0 <= i < chunks,
    ensures
        chunk_len(total, chunks, i) >= 1,
{
    assert(total / chunks >= 1) by (nonlinear_arith)
        requires
            chunks > 0,
            total >= chunks,
    ;
}

/// The chunk results stand in order of the pixel ranges they cover.
pub open spec fn sorted_by_start<T>(s: Seq<RenderedPixels<T>>) -> bool {
    forall|i: int, j: int|
        0 <= i < j < s.len() ==> (#[trigger] s[i]).range.0 <= (#[trigger] s[j]).range.0
}

/// The buffers of the chunk results, laid end to end in the given order.
pub open spec fn flatten_buffers<T>(s: Seq<RenderedPixels<T>>) -> Seq<T>
    decreases s.len(),
{
    if s.len() == 0 {
        Seq::empty()
    } else {
        s[0].pixels@ + flatten_buffers(s.drop_first())
    }
}

/// Index of a chunk result whose range starts no later than any other's.
fn min_start_index<T>(v: &Vec<RenderedPixels<T>>) -> (m: usize)
    requires
        v@.len() > 0,
    ensures
        m < v@.len(),
        forall|k: int| 0 <= k < v@.len() ==> v@[m as int].range.0 <= (#[trigger] v@[k]).range.0,
{
    let mut m: usize = 0;
    let mut t: usize = 1;
    while t < v.len()
        invariant
            m < t <= v@.len(),
            forall|k: int| 0 <= k < t ==> v@[m as int].range.0 <= (#[trigger] v@[k]).range.0,
        decreases v@.len() - t,
    {
        if v[t].range.0 < v[m].range.0 {
            m = t;
        }
        t = t + 1;
    }
    m
}

/// Sorts the chunk results by the start of their pixel ranges. Completion
/// order of the render jobs is arbitrary; this restores the image order.
pub fn sort_rendered_pixels<T>(rendered_pixels: &mut Vec<RenderedPixels<T>>)
    ensures
        final(rendered_pixels)@.to_multiset() == old(rendered_pixels)@.to_multiset(),
        sorted_by_start(final(rendered_pixels)@),
{
    let ghost orig = rendered_pixels@;
    let mut sorted_vec: Vec<RenderedPixels<T>> = Vec::new();

    proof {
        broadcast use vstd::seq_lib::group_to_multiset_ensures;

        assert(sorted_vec@.to_multiset().add(rendered_pixels@.to_multiset()) =~= orig.to_multiset());
    }

    while rendered_pixels.len() > 0
        invariant
            sorted_vec@.to_multiset().add(rendered_pixels@.to_multiset()) == orig.to_multiset(),
            sorted_by_start(sorted_vec@),
            forall|a: int, b: int|
                0 <= a < sorted_vec@.len() && 0 <= b < rendered_pixels@.len() ==> (
                #[trigger] sorted_vec@[a]).range.0 <= (#[trigger] rendered_pixels@[b]).range.0,
        decreases rendered_pixels@.len(),
    {
        let ghost before = rendered_pixels@;
        let m = min_start_index(rendered_pixels);
        let item = rendered_pixels.remove(m);

        proof {
            broadcast use vstd::seq_lib::group_to_multiset_ensures;

            before.remove_ensures(m as int);
            assert forall|b: int| 0 <= b < rendered_pixels@.len() implies item.range.0 <= (
            #[trigger] rendered_pixels@[b]).range.0 by {
                if b < m {
                    assert(rendered_pixels@[b] == before[b]);
                } else {
                    assert(rendered_pixels@[b] == before[b + 1]);
                }
            }
            assert(sorted_vec@.push(item).to_multiset().add(rendered_pixels@.to_multiset())
                =~= orig.to_multiset()) by {
                assert(before.to_multiset().count(item) > 0);
                assert(rendered_pixels@.to_multiset() =~= before.to_multiset().remove(item));
            }
            assert(sorted_by_start(sorted_vec@.push(item)));
        }

        sorted_vec.push(item);
    }

    proof {
        assert(sorted_vec@.to_multiset() =~= orig.to_multiset()) by {
            broadcast use vstd::seq_lib::group_to_multiset_ensures;

            assert(rendered_pixels@.to_multiset() =~= Multiset::empty());
        }
    }

    *rendered_pixels = sorted_vec;
}

/// Concatenates the buffers of the chunk results in the order given.
pub fn concat_rendered_pixels<T>(results: Vec<RenderedPixels<T>>) -> (pixels: Vec<T>)
    ensures
        pixels@ == flatten_buffers(results@),
{
    let mut rest = results;
    let ghost orig = rest@;
    let mut pixels: Vec<T> = Vec::new();

    proof {
        assert(pixels@ + flatten_buffers(rest@) =~= flatten_buffers(orig));
    }

    while rest.len() > 0
        invariant
            pixels@ + flatten_buffers(rest@) == flatten_buffers(orig),
        decreases rest@.len(),
    {
        let ghost before = rest@;
        let mut result = rest.remove(0);
        proof {
            assert(before.remove(0) =~= before.drop_first());
        }
        pixels.append(&mut result.pixels);
        proof {
            assert(pixels@ + flatten_buffers(rest@) =~= flatten_buffers(orig));
        }
    }

    proof {
        assert(pixels@ =~= pixels@ + flatten_buffers(rest@));
    }

    pixels
}

/// Restores the image from chunk results that arrived in arbitrary order:
/// sorts them by range start, then concatenates their buffers. When the
/// results are, in some order, a tiling of a full pixel buffer by non-empty
/// ranges, what comes out is that buffer, pixel for pixel.
pub fn assemble_pixels<T>(results: Vec<RenderedPixels<T>>) -> (pixels: Vec<T>)
    ensures
        exists|s: Seq<RenderedPixels<T>>|
            s.to_multiset() == results@.to_multiset() && #[trigger] sorted_by_start(s) && pixels@
                == flatten_buffers(s),
        forall|q: Seq<RenderedPixels<T>>, full: Seq<T>|
            q.to_multiset() == results@.to_multiset() && #[trigger] tiles(q, full) && (forall|
                k: int,
            |
                0 <= k < q.len() ==> (#[trigger] q[k]).range.0 < q[k].range.1) ==> pixels@ == full,
{
    let ghost arrived = results@;
    let mut results = results;
    sort_rendered_pixels(&mut results);
    let ghost sorted = results@;
    let pixels = concat_rendered_pixels(results);

    proof {
        assert forall|q: Seq<RenderedPixels<T>>, full: Seq<T>|
            q.to_multiset() == arrived.to_multiset() && #[trigger] tiles(q, full) && (forall|
                k: int,
            |
                0 <= k < q.len() ==> (#[trigger] q[k]).range.0
                    < q[k].range.1) implies pixels@ == full by {
            lemma_assembly_restores_image(sorted, q, full);
        }
    }

    pixels
}

/// The chunk results `q`, in the given order, tile the whole pixel buffer
/// `full`: their ranges are consecutive, begin at pixel 0, end at the buffer
/// length, and each buffer holds exactly the pixels of `full` at its range.
pub open spec fn tiles<T>(q: Seq<RenderedPixels<T>>, full: Seq<T>) -> bool {
    &&& (q.len() == 0 ==> full.len() == 0)
    &&& (q.len() > 0 ==> q[0].range.0 == 0)
    &&& (q.len() > 0 ==> q[q.len() - 1].range.1 == full.len())
    &&& (forall|i: int| 0 <= i < q.len() - 1 ==> (#[trigger] q[i]).range.1 == q[i + 1].range.0)
    &&& (forall|i: int| 0 <= i < q.len() ==> (#[trigger] q[i]).range.0 <= q[i].range.1 <= full.len())
    &&& (forall|i: int|
        0 <= i < q.len() ==> (#[trigger] q[i]).pixels@ == full.subrange(
            q[i].range.0 as int,
            q[i].range.1 as int,
        ))
}

/// Flattening consecutive segments of `full`, starting at `off`, recovers
/// `full` from `off` on.
#[verifier::rlimit(50)]
proof fn lemma_flatten_segments<T>(q: Seq<RenderedPixels<T>>, full: Seq<T>, off: int)
    requires
        0 <= off <= full.len(),
        q.len() == 0 ==> off == full.len(),
        q.len() > 0 ==> q[0].range.0 == off,
        q.len() > 0 ==> q[q.len() - 1].range.1 == full.len(),
        forall|i: int| 0 <= i < q.len() - 1 ==> (#[trigger] q[i]).range.1 == q[i + 1].range.0,
        forall|i: int| 0 <= i < q.len() ==> (#[trigger] q[i]).range.0 <= q[i].range.1 <= full.len(),
        forall|i: int|
            0 <= i < q.len() ==> (#[trigger] q[i]).pixels@ == full.subrange(
                q[i].range.0 as int,
                q[i].range.1 as int,
            ),
    ensures
        flatten_buffers(q) == full.subrange(off, full.len() as int),
    decreases q.len(),
{
    if q.len() == 0 {
        assert(flatten_buffers(q) =~= full.subrange(off, full.len() as int));
    } else {
        let mid = q[0].range.1 as int;
        let rest = q.drop_first();
        assert(forall|i: int| 0 <= i < rest.len() ==> #[trigger] rest[i] == q[i + 1]);
        assert(rest.len() > 0 ==> rest[0] == q[1]);
        assert(rest.len() > 0 ==> rest[rest.len() - 1] == q[q.len() - 1]);
        lemma_flatten_segments(rest, full, mid);
        assert(full.subrange(off, full.len() as int) =~= full.subrange(off, mid) + full.subrange(
            mid,
            full.len() as int,
        ));
        assert(flatten_buffers(q) == q[0].pixels@ + flatten_buffers(rest));
    }
}

/// In a tiling of non-empty chunks the range starts strictly increase.
proof fn lemma_tiles_starts_increase<T>(q: Seq<RenderedPixels<T>>, full: Seq<T>, i: int, j: int)
    requires
        tiles(q, full),
        forall|k: int| 0 <= k < q.len() ==> (#[trigger] q[k]).range.0 < q[k].range.1,
        0 <= i <= j < q.len(),
    ensures
        q[i].range.0 <= q[j].range.0,
        i < j ==> q[i].range.0 < q[j].range.0,
    decreases j - i,
{
    if i < j {
        lemma_tiles_starts_increase(q, full, i + 1, j);
    }
}

/// A sorted permutation of a sequence with pairwise distinct range starts is
/// that sequence itself.
proof fn lemma_sorted_permutation_unique<T>(s: Seq<RenderedPixels<T>>, q: Seq<RenderedPixels<T>>)
    requires
        s.to_multiset() == q.to_multiset(),
        sorted_by_start(s),
        sorted_by_start(q),
        forall|i: int, j: int|
            0 <= i < j < q.len() ==> (#[trigger] q[i]).range.0 != (#[trigger] q[j]).range.0,
    ensures
        s == q,
    decreases q.len(),
{
    broadcast use vstd::seq_lib::group_to_multiset_ensures;

    assert(s.len() == s.to_multiset().len());
    assert(q.len() == q.to_multiset().len());
    assert(s.len() == q.len());
    if q.len() == 0 {
        assert(s =~= q);
    } else {
        assert(s.contains(s[0]));
        assert(q.to_multiset().count(s[0]) > 0);
        assert(q.contains(s[0]));
        let k = choose|k: int| 0 <= k < q.len() && q[k] == s[0];
        assert(q.contains(q[0]));
        assert(s.to_multiset().count(q[0]) > 0);
        assert(s.contains(q[0]));
        let k2 = choose|k2: int| 0 <= k2 < s.len() && s[k2] == q[0];
        assert(q[0].range.0 <= q[k].range.0);
        assert(s[0].range.0 <= s[k2].range.0);
        assert(q[0].range.0 == s[0].range.0);
        assert(k == 0) by {
            if k != 0 {
                assert(q[0].range.0 != q[k].range.0);
            }
        }
        assert(s[0] == q[0]);

        let st = s.drop_first();
        let qt = q.drop_first();
        assert(st =~= s.remove(0));
        assert(qt =~= q.remove(0));
        assert(st.to_multiset() =~= s.to_multiset().remove(s[0]));
        assert(qt.to_multiset() =~= q.to_multiset().remove(q[0]));
        assert(sorted_by_start(st)) by {
            assert(forall|i: int| 0 <= i < st.len() ==> #[trigger] st[i] == s[i + 1]);
        }
        assert(sorted_by_start(qt)) by {
            assert(forall|i: int| 0 <= i < qt.len() ==> #[trigger] qt[i] == q[i + 1]);
        }
        assert forall|i: int, j: int| 0 <= i < j < qt.len() implies (#[trigger] qt[i]).range.0 != (
        #[trigger] qt[j]).range.0 by {
            assert(qt[i] == q[i + 1]);
            assert(qt[j] == q[j + 1]);
        }
        lemma_sorted_permutation_unique(st, qt);
        assert(s =~= q) by {
            assert(forall|i: int| 1 <= i < s.len() ==> #[trigger] s[i] == st[i - 1]);
            assert(forall|i: int| 1 <= i < q.len() ==> #[trigger] q[i] == qt[i - 1]);
        }
    }
}

/// Reassembly restores the image, whatever order the chunks came back in:
/// when the chunk results are, in some order, a tiling of the full pixel
/// buffer by non-empty ranges — which is what rendering each range produced
/// by `get_ranges` yields, as long as there are at least as many pixels as
/// chunks — then sorting them by range start and concatenating their buffers
/// gives exactly the full buffer, pixel for pixel.
pub proof fn lemma_assembly_restores_image<T>(
    s: Seq<RenderedPixels<T>>,
    q: Seq<RenderedPixels<T>>,
    full: Seq<T>,
)
    requires
        s.to_multiset() == q.to_multiset(),
        sorted_by_start(s),
        tiles(q, full),
        forall|k: int| 0 <= k < q.len() ==> (#[trigger] q[k]).range.0 < q[k].range.1,
    ensures
        flatten_buffers(s) == full,
{
    assert forall|i: int, j: int| 0 <= i < j < q.len() implies (#[trigger] q[i]).range.0 != (
    #[trigger] q[j]).range.0 by {
        lemma_tiles_starts_increase(q, full, i, j);
    }
    assert forall|i: int, j: int| 0 <= i < j < q.len() implies (#[trigger] q[i]).range.0 <= (
    #[trigger] q[j]).range.0 by {
        lemma_tiles_starts_increase(q, full, i, j);
    }
    lemma_sorted_permutation_unique(s, q);
    lemma_flatten_segments(q, full, 0);
    assert(full.subrange(0, full.len() as int) =~= full);
}

} // verus!
