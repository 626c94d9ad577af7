use wl_longshot::edges::{edge_diff, edge_overlap_tail_head, edge_rows};
use wl_longshot::overlap::{col_diff, content_bottom_ignore, content_top_ignore, range_diff};
use wl_longshot::profile::{compute_cols, gray_pixel, gray_pixel_alpha, spread};
use wl_longshot::raster::Image;
use wl_longshot::search::{
    effective_min_overlap, find_edge_position, find_known_position, find_offset,
    known_overlap_diff, offset_candidates, overhang_amount, Edge,
};
use wl_longshot::signature::{byte_difference, frame_signature, is_duplicate_signature};
use wl_longshot::single::Single;

fn float(value: Single) -> f32 {
    f32::from_bits(value.to_bits())
}

fn next(seed: &mut u64) -> u32 {
    *seed = seed.wrapping_mul(6364136223846793005).wrapping_add(1442695040888963407);
    (*seed >> 32) as u32
}

fn noise(width: u32, height: u32, seed: u64) -> Image {
    let mut seed = seed;
    let mut image = Image::new(width, height);
    for y in 0..height {
        for x in 0..width {
            let n = next(&mut seed);
            image.put_pixel(x, y, n.to_be_bytes());
        }
    }
    image
}

fn part(image: &Image, start: u32, height: u32) -> Image {
    let mut result = Image::new(image.width(), height);
    for y in 0..height {
        for x in 0..image.width() {
            result.put_pixel(x, y, image.get_pixel(x, start + y));
        }
    }
    result
}

fn gray(pixel: [u8; 4]) -> f32 {
    0.299 * pixel[0] as f32 + 0.587 * pixel[1] as f32 + 0.114 * pixel[2] as f32
}

fn gray_alpha(pixel: [u8; 4]) -> f32 {
    let alpha = pixel[3] as f32 / 255.0;
    gray(pixel) * alpha + 255.0 * (1.0 - alpha)
}

fn column(width: u32, count: u32, step: u32) -> u32 {
    if count == 1 {
        0
    } else {
        ((step as u64 * (width - 1) as u64) / (count - 1) as u64) as u32
    }
}

fn row_profile(image: &Image, y: u32) -> [f32; 3] {
    let count = image.width().min(96).max(1);
    let values: Vec<f32> = (0..count)
        .map(|step| gray(image.get_pixel(column(image.width(), count, step), y)))
        .collect();
    let mut total = 0.0f32;
    for value in &values {
        total += value;
    }
    let mean = total / count as f32;
    let (mut bright, mut edges, mut contrast) = (0.0f32, 0.0f32, 0.0f32);
    for (i, value) in values.iter().enumerate() {
        contrast += (value - mean).abs();
        bright += (value - mean - 8.0).max(0.0);
        if i > 0 {
            edges += (value - values[i - 1]).abs();
        }
    }
    let gaps = count.saturating_sub(1).max(1) as f32;
    [
        mean * 2.0,
        contrast / count as f32,
        bright / count as f32 + edges / gaps,
    ]
}

fn profile(image: &Image) -> Vec<[f32; 3]> {
    (0..image.height()).map(|y| row_profile(image, y)).collect()
}

fn distance(a: &[[f32; 3]], b: &[[f32; 3]], top: usize, end: usize) -> f32 {
    let mut total = 0.0f32;
    for row in top..end {
        total += (a[row][0] - b[row][0]).abs()
            + (a[row][1] - b[row][1]).abs()
            + (a[row][2] - b[row][2]).abs();
    }
    total / ((end - top) * 3) as f32
}

#[test]
fn brightness_of_a_pixel() {
    assert_eq!(float(gray_pixel([255, 255, 255, 0])), 255.0);
    assert_eq!(float(gray_pixel([0, 0, 0, 255])), 0.0);
    assert_eq!(float(gray_pixel_alpha([0, 0, 0, 0])), 255.0);
    assert_eq!(float(gray_pixel_alpha([0, 0, 0, 255])), 0.0);
    let mut seed = 3u64;
    for _ in 0..20_000 {
        let pixel = next(&mut seed).to_be_bytes();
        assert_eq!(float(gray_pixel(pixel)), gray(pixel));
        assert_eq!(float(gray_pixel_alpha(pixel)), gray_alpha(pixel));
    }
}

#[test]
fn samples_reach_both_ends() {
    assert_eq!(spread(1000, 96, 0), 0);
    assert_eq!(spread(1000, 96, 95), 999);
    assert_eq!(spread(1000, 96, 1), 10);
    assert_eq!(spread(7, 1, 0), 0);
}

#[test]
fn profile_of_rows() {
    for (width, height, seed) in [(1, 3, 1), (2, 4, 2), (37, 5, 3), (96, 4, 4), (301, 6, 5)] {
        let image = noise(width, height, seed);
        let rows = compute_cols(&image);
        assert_eq!(rows.len(), height as usize);
        for (y, row) in rows.iter().enumerate() {
            let (mean, contrast, detail) = row.parts();
            let expected = row_profile(&image, y as u32);
            assert_eq!([float(mean), float(contrast), float(detail)], expected);
        }
    }
    assert_eq!(compute_cols(&Image::new(0, 0)).len(), 0);
}

#[test]
fn ignored_rows_at_top_and_bottom() {
    assert_eq!((content_top_ignore(79), content_bottom_ignore(79)), (0, 0));
    assert_eq!((content_top_ignore(80), content_bottom_ignore(80)), (16, 16));
    assert_eq!((content_top_ignore(400), content_bottom_ignore(400)), (40, 32));
    assert_eq!((content_top_ignore(160), content_bottom_ignore(160)), (16, 16));
}

#[test]
fn distance_of_rows() {
    let a = noise(40, 120, 11);
    let b = noise(40, 120, 12);
    let (p, q) = (compute_cols(&a), compute_cols(&b));
    let (s, t) = (profile(&a), profile(&b));
    let short = range_diff(&p, &q, 0, 0, 60, 12);
    assert_eq!(float(short), distance(&s, &t, 0, 60));
    let long = range_diff(&p, &q, 0, 0, 100, 12);
    assert_eq!(float(long), distance(&s, &t, 16, 84));
    assert!(!range_diff(&p, &q, 0, 0, 100, 69).finite());
    assert!(!range_diff(&p, &q, 0, 0, 0, 0).finite());
    let down = col_diff(&p, &q, 20, 12);
    assert_eq!(float(down), distance(&s[20..], &t, 16, 84));
    let up = col_diff(&p, &q, -20, 12);
    assert_eq!(float(up), distance(&s, &t[20..], 16, 84));
    assert!(!col_diff(&p, &q, 119, 12).finite());
    assert_eq!(float(col_diff(&p, &p, 0, 12)), 0.0);
}

#[test]
fn edges_of_rows() {
    let image = noise(30, 8, 21);
    let rows = edge_rows(&image, 2, 5, 17);
    let mut expected = Vec::new();
    for y in 2..7u32 {
        for step in 0..17u32 {
            let x = column(30, 17, step);
            let here = gray_alpha(image.get_pixel(x, y));
            let left = if step == 0 {
                here
            } else {
                gray_alpha(image.get_pixel(column(30, 17, step - 1), y))
            };
            let up = gray_alpha(image.get_pixel(x, y - 1));
            let edge = (here - left).abs() + (here - up).abs();
            expected.push(edge.min(255.0).round() as u8);
        }
    }
    assert_eq!(rows, expected);
    assert_eq!(edge_rows(&image, 0, 1, 1), vec![0]);
}

#[test]
fn distance_of_edges() {
    assert_eq!(float(edge_diff(&[1, 2, 3], &[4, 2, 1])), 5.0f32 / 3.0);
    assert!(!edge_diff(&[1], &[1, 2]).finite());
    assert!(!edge_diff(&[], &[]).finite());
}

#[test]
fn no_overlap_without_edges_or_rows() {
    let plain = Image::new(40, 60);
    assert_eq!(edge_overlap_tail_head(&plain, &plain, 12), None);
    let image = noise(40, 12, 5);
    assert_eq!(edge_overlap_tail_head(&image, &image, 12), None);
    let empty = Image::new(0, 40);
    assert_eq!(edge_overlap_tail_head(&empty, &empty, 12), None);
}

#[test]
fn overlap_that_is_needed() {
    assert_eq!(effective_min_overlap(0), 12);
    assert_eq!(effective_min_overlap(48), 12);
    assert_eq!(effective_min_overlap(80), 20);
    assert_eq!(effective_min_overlap(1000), 100);
}

#[test]
fn overhang_at_both_ends() {
    assert_eq!(overhang_amount(-5, 10, 100), (5, Edge::Start));
    assert_eq!(overhang_amount(95, 10, 100), (5, Edge::End));
    assert_eq!(overhang_amount(20, 10, 100), (0, Edge::End));
    assert_eq!(overhang_amount(-5, 110, 100), (5, Edge::End));
}

#[test]
fn candidates_start_at_the_prediction() {
    assert_eq!(offset_candidates(3, 1), vec![1, 2, 0, 3, -1, -2, -3]);
    assert_eq!(offset_candidates(2, 9), vec![2, 1, 0, -1, -2]);
    assert_eq!(offset_candidates(0, -4), vec![0]);
}

#[test]
fn offset_between_two_frames() {
    let page = noise(24, 140, 31);
    let last = compute_cols(&part(&page, 0, 80));
    let frame = compute_cols(&part(&page, 25, 80));
    let found = find_offset(&last, &frame, 0, 20);
    assert_eq!(found.pos, 25);
    assert_eq!(float(found.diff), 0.0);
}

#[test]
fn places_inside_and_outside_a_picture() {
    let page = noise(24, 300, 41);
    let full = compute_cols(&part(&page, 60, 180));
    let inside = compute_cols(&part(&page, 100, 80));
    let found = find_known_position(&full, &inside, 0, 0, 20).unwrap();
    assert_eq!(found.pos, 40);
    assert_eq!(float(found.diff), 0.0);
    let below = compute_cols(&part(&page, 200, 80));
    let found = find_edge_position(&full, &below, 140, 20).unwrap();
    assert_eq!(found.pos, 140);
    assert_eq!(float(found.diff), 0.0);
    let shared = known_overlap_diff(&full, &below, 140, 20).unwrap();
    assert_eq!(float(shared.diff), 0.0);
    assert!(known_overlap_diff(&full, &below, 175, 20).is_none());
    let strange = compute_cols(&Image::new(24, 80));
    let worst = find_known_position(&full, &strange, 0, 0, 20).unwrap();
    assert!(float(worst.diff) > 26.0);
}

#[test]
fn signature_of_a_frame() {
    let image = noise(50, 70, 51);
    let signature = frame_signature(&image);
    assert_eq!(signature.len(), 432);
    for row in 0..24u32 {
        for col in 0..18u32 {
            let pixel = image.get_pixel(col * 50 / 18, row * 70 / 24);
            let expected = gray(pixel).round() as u8;
            assert_eq!(signature[(row * 18 + col) as usize], expected);
        }
    }
}

#[test]
fn signatures_that_are_alike() {
    assert_eq!(byte_difference(3, 250), 247);
    assert!(is_duplicate_signature(&vec![7; 10], &vec![7; 10]));
    assert!(is_duplicate_signature(&vec![7; 10], &vec![8; 10]));
    assert!(!is_duplicate_signature(&vec![7; 10], &vec![9; 10]));
    let mut one = vec![7; 10];
    one[0] = 11;
    assert!(is_duplicate_signature(&vec![7; 10], &one));
    one[0] = 12;
    assert!(!is_duplicate_signature(&vec![7; 10], &one));
    assert!(!is_duplicate_signature(&vec![], &vec![]));
    assert!(!is_duplicate_signature(&vec![1], &vec![1, 1]));
}
