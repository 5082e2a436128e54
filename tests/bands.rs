use juliafatou::band::{band_layout, rows_per_band, Band};
use juliafatou::render::{join_bands, render};

fn band(top: usize, height: usize) -> Band {
    Band { top, height }
}

#[test]
fn rows_per_band_is_share_plus_one() {
    assert_eq!(rows_per_band(10, 3), 4);
    assert_eq!(rows_per_band(12, 4), 4);
    assert_eq!(rows_per_band(0, 8), 1);
    assert_eq!(rows_per_band(1200, 1), 1201);
}

#[test]
fn layout_of_ten_rows_for_three_threads() {
    assert_eq!(band_layout(10, 3), vec![band(0, 4), band(4, 4), band(8, 2)]);
}

#[test]
fn layout_with_one_thread_is_one_band() {
    assert_eq!(band_layout(7, 1), vec![band(0, 7)]);
}

#[test]
fn layout_of_empty_image_has_no_bands() {
    assert_eq!(band_layout(0, 4), Vec::<Band>::new());
}

#[test]
fn layout_with_as_many_threads_as_rows() {
    assert_eq!(band_layout(5, 5), vec![band(0, 2), band(2, 2), band(4, 1)]);
}

#[test]
fn layout_with_more_threads_than_rows() {
    assert_eq!(band_layout(3, 8), vec![band(0, 1), band(1, 1), band(2, 1)]);
}

#[test]
fn every_row_lies_in_exactly_one_band() {
    for height in 1..40usize {
        for threads in 1..=height {
            let bands = band_layout(height, threads);
            let mut count = vec![0usize; height];
            for b in &bands {
                assert!(b.height > 0);
                for row in b.top..b.top + b.height {
                    count[row] += 1;
                }
            }
            assert!(count.iter().all(|&n| n == 1), "height {} threads {}", height, threads);
        }
    }
}

fn shade(p: (usize, usize)) -> [u8; 3] {
    [p.0 as u8, p.1 as u8, (p.0 * 7 + p.1) as u8]
}

#[test]
fn render_writes_each_pixel_from_its_global_place() {
    let mut pixels = vec![0u8; 3 * 2 * 3];
    render(&mut pixels, (3, 2), (0, 5), &shade);
    assert_eq!(
        pixels,
        vec![5, 0, 35, 5, 1, 36, 5, 2, 37, 6, 0, 42, 6, 1, 43, 6, 2, 44]
    );
}

#[test]
fn render_honours_column_offset() {
    let mut pixels = vec![0u8; 2 * 1 * 3];
    render(&mut pixels, (2, 1), (4, 1), &shade);
    assert_eq!(pixels, vec![1, 4, 11, 1, 5, 12]);
}

#[test]
fn render_of_empty_band_changes_nothing() {
    let mut pixels: Vec<u8> = Vec::new();
    render(&mut pixels, (0, 4), (0, 0), &shade);
    assert!(pixels.is_empty());
}

#[test]
fn join_bands_concatenates_in_order() {
    let parts = vec![vec![1u8, 2], vec![], vec![3u8, 4, 5]];
    assert_eq!(join_bands(&parts), vec![1, 2, 3, 4, 5]);
    assert_eq!(join_bands(&Vec::new()), Vec::<u8>::new());
}

fn render_in_bands(width: usize, height: usize, threads: usize) -> Vec<u8> {
    let parts: Vec<Vec<u8>> = band_layout(height, threads)
        .iter()
        .map(|b| {
            let mut part = vec![0u8; width * b.height * 3];
            render(&mut part, (width, b.height), (0, b.top), &shade);
            part
        })
        .collect();
    join_bands(&parts)
}

#[test]
fn thread_count_does_not_change_the_image() {
    let whole = render_in_bands(9, 13, 1);
    for threads in 2..=13 {
        assert_eq!(render_in_bands(9, 13, threads), whole);
    }
}
