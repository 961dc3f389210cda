use raytracer::renderer::{
    assemble_pixels, concat_rendered_pixels, get_ranges, sort_rendered_pixels, RenderedPixels,
};

#[test]
fn ranges_divide_evenly() {
    let r = get_ranges(0, 12, 4);
    assert_eq!(r, vec![(0, 3), (3, 6), (6, 9), (9, 12)]);
}

#[test]
fn ranges_hand_remainder_to_first_chunks() {
    let r = get_ranges(0, 10, 3);
    assert_eq!(r, vec![(0, 4), (4, 7), (7, 10)]);

    let r = get_ranges(0, 7, 3);
    assert_eq!(r, vec![(0, 3), (3, 5), (5, 7)]);
}

#[test]
fn ranges_respect_nonzero_start() {
    let r = get_ranges(5, 9, 2);
    assert_eq!(r, vec![(5, 7), (7, 9)]);
}

#[test]
fn ranges_single_chunk_is_whole_interval() {
    let r = get_ranges(0, 100, 1);
    assert_eq!(r, vec![(0, 100)]);
}

#[test]
fn ranges_with_more_chunks_than_pixels() {
    let r = get_ranges(0, 2, 3);
    assert_eq!(r, vec![(0, 1), (1, 2), (2, 2)]);
}

#[test]
fn sort_orders_chunks_by_range_start() {
    let mut results = vec![
        RenderedPixels { range: (4, 7), pixels: vec![40u32, 50, 60] },
        RenderedPixels { range: (7, 10), pixels: vec![70u32, 80, 90] },
        RenderedPixels { range: (0, 4), pixels: vec![0u32, 10, 20, 30] },
    ];
    sort_rendered_pixels(&mut results);
    let starts: Vec<usize> = results.iter().map(|r| r.range.0).collect();
    assert_eq!(starts, vec![0, 4, 7]);
    assert_eq!(results[0].pixels, vec![0, 10, 20, 30]);
    assert_eq!(results[1].pixels, vec![40, 50, 60]);
    assert_eq!(results[2].pixels, vec![70, 80, 90]);
}

#[test]
fn concat_keeps_given_order() {
    let results = vec![
        RenderedPixels { range: (0, 2), pixels: vec![1u8, 2] },
        RenderedPixels { range: (2, 3), pixels: vec![3u8] },
        RenderedPixels { range: (3, 6), pixels: vec![4u8, 5, 6] },
    ];
    let pixels = concat_rendered_pixels(results);
    assert_eq!(pixels, vec![1, 2, 3, 4, 5, 6]);
}

/// Renders pixel index k of a pretend image deterministically.
fn pretend_pixel(k: usize) -> u64 {
    (k as u64) * 31 + 7
}

/// Splits a deterministic render into chunks, hands the chunk results over
/// in a scrambled completion order, and checks that reassembly is identical
/// to rendering the whole range in one piece.
fn assemble_matches_single_chunk(total: usize, chunks: usize) {
    let single: Vec<u64> = (0..total).map(pretend_pixel).collect();

    let ranges = get_ranges(0, total, chunks);
    let mut results: Vec<RenderedPixels<u64>> = ranges
        .iter()
        .map(|&(start, end)| RenderedPixels {
            range: (start, end),
            pixels: (start..end).map(pretend_pixel).collect(),
        })
        .collect();
    // Completion order of the worker pool is arbitrary; scramble it.
    results.reverse();
    if results.len() > 2 {
        results.swap(0, 2);
        let first = results.remove(0);
        results.push(first);
    }

    let assembled = assemble_pixels(results);
    assert_eq!(assembled, single);
}

#[test]
fn assembly_is_identical_for_one_three_and_seven_chunks() {
    for &chunks in &[1usize, 3, 7] {
        assemble_matches_single_chunk(60, chunks);
    }
}

#[test]
fn assembly_copes_with_an_empty_chunk() {
    let results = vec![
        RenderedPixels { range: (2, 4), pixels: vec![2u8, 3] },
        RenderedPixels { range: (2, 2), pixels: vec![] },
        RenderedPixels { range: (0, 2), pixels: vec![0u8, 1] },
    ];
    let pixels = assemble_pixels(results);
    assert_eq!(pixels, vec![0, 1, 2, 3]);
}
