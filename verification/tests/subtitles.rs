use wl_longshot::raster::Image;
use wl_longshot::single::Single;
use wl_longshot::subtitle::{
    crop_region, detect_region, feature_diff, feature_energy, fill_separator, has_subtitle_text,
    row_text_score, subtitle_feature, text_pixel_score, SubtitleConfig, SubtitleRegion,
    SubtitleStatus, SubtitleStitcher,
};

fn filled(width: u32, height: u32, color: [u8; 4]) -> Image {
    let mut image = Image::new(width, height);
    for y in 0..height {
        for x in 0..width {
            image.put_pixel(x, y, color);
        }
    }
    image
}

fn quarter() -> Single {
    Single::from_bits(0.25f32.to_bits()).unwrap()
}

fn subtitle_frame(bg: [u8; 3], with_text: bool, offset: u32) -> Image {
    let mut frame = filled(220, 120, [bg[0], bg[1], bg[2], 255]);
    if with_text {
        for glyph in 0..5 {
            let x0 = 44 + glyph * 24 + offset;
            for y in 84..98 {
                for x in x0..x0 + 6 {
                    if x < frame.width() {
                        frame.put_pixel(x, y, [245, 245, 245, 255]);
                    }
                }
            }
        }
    }
    frame
}

#[test]
fn detects_bottom_subtitle_region() {
    let mut frame = filled(200, 120, [20, 20, 20, 255]);
    for y in 84..96 {
        for x in (30..170).step_by(6) {
            frame.put_pixel(x, y, [240, 240, 240, 255]);
        }
    }
    let frames: Vec<Image> = (0..4).map(|_| frame.clone()).collect();
    let region = detect_region(&frames, quarter());
    assert!(region.y <= 84);
    assert!(region.y + region.height >= 96);
}

#[test]
fn same_text_with_different_background_is_duplicate() {
    let config = SubtitleConfig {
        bottom_ratio: quarter(),
        stable_frames: 1,
        min_gap_frames: 1,
        calibration_frames: 2,
    };
    let mut stitcher = SubtitleStitcher::new(config);
    assert!(matches!(
        stitcher.push_frame(&subtitle_frame([20, 20, 20], true, 0)),
        SubtitleStatus::Calibrating { .. }
    ));
    assert_eq!(
        stitcher.push_frame(&subtitle_frame([30, 40, 50], true, 0)),
        SubtitleStatus::Added
    );
    assert_eq!(stitcher.strips(), 1);
    assert_eq!(
        stitcher.push_frame(&subtitle_frame([90, 40, 20], true, 0)),
        SubtitleStatus::Duplicate
    );
    assert_eq!(stitcher.strips(), 1);
}

#[test]
fn empty_gap_is_not_added() {
    let config = SubtitleConfig {
        bottom_ratio: quarter(),
        stable_frames: 1,
        min_gap_frames: 1,
        calibration_frames: 2,
    };
    let mut stitcher = SubtitleStitcher::new(config);
    let _ = stitcher.push_frame(&subtitle_frame([20, 20, 20], true, 0));
    let _ = stitcher.push_frame(&subtitle_frame([30, 30, 30], true, 0));
    assert_eq!(stitcher.strips(), 1);
    assert_eq!(
        stitcher.push_frame(&subtitle_frame([120, 80, 60], false, 0)),
        SubtitleStatus::Duplicate
    );
    assert_eq!(stitcher.strips(), 1);
}

fn float(value: Single) -> f32 {
    f32::from_bits(value.to_bits())
}

fn noise(width: u32, height: u32) -> Image {
    let mut seed = 77u64;
    let mut image = Image::new(width, height);
    for y in 0..height {
        for x in 0..width {
            seed = seed.wrapping_mul(6364136223846793005).wrapping_add(1442695040888963407);
            let n = (seed >> 32) as u32;
            let mut pixel = n.to_be_bytes();
            if n % 3 == 0 {
                pixel = [250, 240, 245, 255];
            }
            if n % 3 == 1 {
                pixel = [60, 100, 200, 255];
            }
            image.put_pixel(x, y, pixel);
        }
    }
    image
}

fn level(image: &Image, x: u32, y: u32) -> f32 {
    let pixel = image.get_pixel(x, y);
    0.299 * pixel[0] as f32 + 0.587 * pixel[1] as f32 + 0.114 * pixel[2] as f32
}

#[test]
fn text_is_scored_by_rows() {
    let image = noise(500, 4);
    for y in 0..4u32 {
        let mut expected = 0.0f32;
        let mut x = 1;
        while x < 500 {
            let g = level(&image, x, y);
            let left = (g - level(&image, x - 1, y)).abs();
            let up = (g - level(&image, x, y.saturating_sub(1))).abs();
            let edge = left.max(up);
            if g > 175.0 && edge > 22.0 {
                expected += 2.0;
            } else if g > 210.0 && edge > 12.0 {
                expected += 0.8;
            }
            x += 2;
        }
        assert_eq!(float(row_text_score(&image, y)), expected);
    }
}

#[test]
fn text_is_scored_by_pixels() {
    let image = noise(30, 9);
    let mut seen = Vec::new();
    for y in 0..9u32 {
        for x in 0..30u32 {
            let pixel = image.get_pixel(x, y);
            let g = level(&image, x, y);
            let edge = (g - level(&image, x.saturating_sub(1), y))
                .abs()
                .max((g - level(&image, (x + 1).min(29), y)).abs())
                .max((g - level(&image, x, y.saturating_sub(1))).abs())
                .max((g - level(&image, x, (y + 1).min(8))).abs());
            let blue = pixel[2] > 110 && pixel[0] < 120 && pixel[1] < 170;
            let expected = if g > 178.0 && edge > 24.0 {
                1.0f32
            } else if g > 215.0 && edge > 12.0 {
                0.45
            } else if blue && edge > 22.0 {
                0.35
            } else {
                0.0
            };
            let score = float(text_pixel_score(&image, x, y));
            assert_eq!(score, expected);
            seen.push(score.to_bits());
        }
    }
    seen.sort();
    seen.dedup();
    assert!(seen.len() >= 3);
}

#[test]
fn feature_tells_cells_with_text() {
    let plain = subtitle_feature(&filled(64, 24, [20, 20, 20, 255]));
    assert_eq!(plain, vec![false; 384]);
    assert!(!has_subtitle_text(&plain));
    let frame = subtitle_frame([20, 20, 20], true, 0);
    let feature = subtitle_feature(&crop_region(&frame, SubtitleRegion { y: 80, height: 24 }));
    assert!(has_subtitle_text(&feature));
    assert_eq!(subtitle_feature(&Image::new(0, 0)), vec![false; 384]);
}

#[test]
fn features_are_compared() {
    let a = vec![true, true, false, false];
    let b = vec![true, false, true, false];
    assert_eq!(float(feature_diff(&a, &b)), 2.0f32 / 3.0);
    assert_eq!(float(feature_diff(&a, &a)), 0.0);
    assert_eq!(float(feature_diff(&vec![false], &vec![false])), 0.0);
    assert!(!feature_diff(&a, &vec![true]).finite());
    assert!(!feature_diff(&vec![], &vec![]).finite());
    assert_eq!(float(feature_energy(&a)), 0.5);
    assert_eq!(float(feature_energy(&vec![])), 0.0);
    let mut few = vec![false; 384];
    few[0] = true;
    few[1] = true;
    few[2] = true;
    assert!(!has_subtitle_text(&few));
    few[3] = true;
    assert!(has_subtitle_text(&few));
}

#[test]
fn region_falls_back_to_the_bottom() {
    let dark = filled(200, 120, [20, 20, 20, 255]);
    let region = detect_region(&vec![dark.clone()], quarter());
    assert_eq!((region.y, region.height), (90, 30));
    let none = Single::from_bits(0).unwrap();
    let region = detect_region(&vec![dark], none);
    assert_eq!((region.y, region.height), (96, 24));
    let region = detect_region(&vec![], quarter());
    assert_eq!((region.y, region.height), (0, 1));
}

#[test]
fn strips_are_cut_and_separated() {
    let mut image = filled(3, 6, [1, 1, 1, 255]);
    fill_separator(&mut image, 2, 2);
    assert_eq!(image.get_pixel(0, 1), [1, 1, 1, 255]);
    assert_eq!(image.get_pixel(0, 2), [210, 201, 115, 255]);
    assert_eq!(image.get_pixel(2, 3), [210, 201, 115, 255]);
    assert_eq!(image.get_pixel(0, 4), [1, 1, 1, 255]);
    let strip = crop_region(&image, SubtitleRegion { y: 3, height: 9 });
    assert_eq!(strip.height(), 3);
    assert_eq!(strip.get_pixel(0, 0), [210, 201, 115, 255]);
}

#[test]
fn new_subtitle_is_taken_once_stable() {
    let config = SubtitleConfig {
        bottom_ratio: quarter(),
        stable_frames: 3,
        min_gap_frames: 2,
        calibration_frames: 1,
    };
    let mut stitcher = SubtitleStitcher::new(config);
    let first = subtitle_frame([20, 20, 20], true, 0);
    let second = subtitle_frame([20, 20, 20], true, 12);
    assert_eq!(stitcher.push_frame(&first), SubtitleStatus::Added);
    let height = stitcher.image().unwrap().height();
    assert_eq!(stitcher.push_frame(&second), SubtitleStatus::Duplicate);
    assert_eq!(stitcher.push_frame(&second), SubtitleStatus::Duplicate);
    assert_eq!(stitcher.push_frame(&second), SubtitleStatus::Duplicate);
    assert_eq!(stitcher.push_frame(&second), SubtitleStatus::Added);
    assert_eq!((stitcher.frames(), stitcher.strips()), (5, 2));
    let image = stitcher.finish().unwrap();
    assert_eq!(image.height(), 2 * height + 2);
    assert_eq!(image.get_pixel(0, height), [210, 201, 115, 255]);
}

#[test]
fn awaited_subtitle_is_kept_in_the_end() {
    let config = SubtitleConfig {
        bottom_ratio: quarter(),
        stable_frames: 9,
        min_gap_frames: 1,
        calibration_frames: 1,
    };
    let mut stitcher = SubtitleStitcher::new(config);
    let blank = subtitle_frame([20, 20, 20], false, 0);
    assert_eq!(stitcher.push_frame(&blank), SubtitleStatus::Ready);
    assert!(stitcher.image().is_none());
    let shown = subtitle_frame([20, 20, 20], true, 0);
    assert_eq!(stitcher.push_frame(&shown), SubtitleStatus::Duplicate);
    assert_eq!(stitcher.strips(), 0);
    assert_eq!(stitcher.finish().unwrap().height(), 30);
    assert!(SubtitleStitcher::new(config).finish().is_none());
}

#[test]
fn frames_are_gathered_until_there_are_enough() {
    let config = SubtitleConfig {
        bottom_ratio: quarter(),
        stable_frames: 1,
        min_gap_frames: 1,
        calibration_frames: 3,
    };
    let mut stitcher = SubtitleStitcher::new(config);
    let blank = subtitle_frame([20, 20, 20], false, 0);
    let told: Vec<SubtitleStatus> = (0..5).map(|_| stitcher.push_frame(&blank)).collect();
    assert_eq!(
        told,
        vec![
            SubtitleStatus::Calibrating { frames: 1, needed: 3 },
            SubtitleStatus::Calibrating { frames: 2, needed: 3 },
            SubtitleStatus::Ready,
            SubtitleStatus::Duplicate,
            SubtitleStatus::Duplicate,
        ]
    );
    assert_eq!((stitcher.frames(), stitcher.strips()), (5, 0));
    assert!(stitcher.image().is_none());
}
