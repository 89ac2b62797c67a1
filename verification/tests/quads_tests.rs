use quadslib::engine::ImageApproximation;
use quadslib::image_buf::{average_value, draw_rectangles, RGBAImage, Rgba, QuadsError};
use quadslib::ranking::{Candidate, Ranking};
use quadslib::rect::{Point, Rectangle};
use quadslib::score::error_image;

fn rect(x0: usize, y0: usize, x1: usize, y1: usize) -> Rectangle {
    Rectangle {
        top_left: Point { x: x0, y: y0 },
        bottom_right: Point { x: x1, y: y1 },
    }
}

#[test]
fn test_rectangle_standard_split() {
    let r = Rectangle {
        top_left: Point { x: 100, y: 200 },
        bottom_right: Point { x: 1000, y: 1000 },
    };

    let mut splits = r.split();

    splits.sort_by(|r1, r2| r1.top_left.cmp(&r2.top_left));

    assert_eq!(
        splits,
        vec![
            Rectangle {
                top_left: Point { x: 100, y: 200 },
                bottom_right: Point { x: 550, y: 600 },
            },
            Rectangle {
                top_left: Point { x: 100, y: 600 },
                bottom_right: Point { x: 550, y: 1000 },
            },
            Rectangle {
                top_left: Point { x: 550, y: 200 },
                bottom_right: Point { x: 1000, y: 600 },
            },
            Rectangle {
                top_left: Point { x: 550, y: 600 },
                bottom_right: Point { x: 1000, y: 1000 },
            },
        ],
    );
}

#[test]
fn test_empty_rectangle_split() {
    let r = Rectangle {
        top_left: Point { x: 100, y: 200 },
        bottom_right: Point { x: 101, y: 201 },
    };

    let splits = r.split();
    assert_eq!(splits, vec![]);
}

#[test]
fn lib_test_rect_basics() {
    let r = Rectangle {
        top_left: Point { x: 10, y: 20 },
        bottom_right: Point { x: 100, y: 50 },
    };

    assert_eq!(r.width(), 90);
    assert_eq!(r.height(), 30);
}

#[test]
fn test_rectangle_split() {
    let r = Rectangle {
        top_left: Point { x: 100, y: 200 },
        bottom_right: Point { x: 1000, y: 1000 },
    };

    let mut splits = r.split();

    splits.sort_by(|r1, r2| r1.top_left.cmp(&r2.top_left));

    assert_eq!(
        splits,
        vec![
            Rectangle {
                top_left: Point { x: 100, y: 200 },
                bottom_right: Point { x: 550, y: 600 },
            },
            Rectangle {
                top_left: Point { x: 100, y: 600 },
                bottom_right: Point { x: 550, y: 1000 },
            },
            Rectangle {
                top_left: Point { x: 550, y: 200 },
                bottom_right: Point { x: 1000, y: 600 },
            },
            Rectangle {
                top_left: Point { x: 550, y: 600 },
                bottom_right: Point { x: 1000, y: 1000 },
            },
        ],
    )
}

#[test]
fn main_test_rect_basics() {
    let r = Rectangle {
        top_left: Point { x: 10, y: 20 },
        bottom_right: Point { x: 100, y: 50 },
    };

    assert_eq!(r.width(), 90);
    assert_eq!(r.height(), 30);
}

#[test]
fn one_pixel_wide_rectangle_never_splits() {
    assert_eq!(rect(3, 0, 4, 100).split(), vec![]);
    assert_eq!(rect(0, 7, 100, 8).split(), vec![]);
}

#[test]
fn constructor_checks_byte_length() {
    let bytes = [0u8; 16];
    assert!(RGBAImage::constructor(&bytes, 2, 2).is_ok());
    assert_eq!(
        RGBAImage::constructor(&bytes, 2, 3).unwrap_err(),
        QuadsError::SizeMismatch
    );
    assert_eq!(
        RGBAImage::constructor(&bytes, 3, 2).unwrap_err(),
        QuadsError::SizeMismatch
    );
}

#[test]
fn pixel_roundtrip() {
    let bytes = [0u8; 16];
    let mut im = RGBAImage::constructor(&bytes, 2, 2).unwrap();
    let c = Rgba { r: 1, g: 2, b: 3, a: 4 };
    im.put_pixel(1, 0, c);
    assert_eq!(im.get_pixel(1, 0), c);
    assert_eq!(im.get_pixel(0, 0), Rgba { r: 0, g: 0, b: 0, a: 0 });
    assert_eq!(im.get_pixel(0, 1), Rgba { r: 0, g: 0, b: 0, a: 0 });
    assert_eq!(im.data(), &vec![0, 0, 0, 0, 1, 2, 3, 4, 0, 0, 0, 0, 0, 0, 0, 0]);
}

#[test]
fn average_of_uniform_region_is_exact() {
    // A region filled with one color averages to that color exactly.
    let px = [9u8, 18, 27, 255];
    let mut bytes = Vec::new();
    for _ in 0..6 {
        bytes.extend_from_slice(&px);
    }
    let im = RGBAImage::constructor(&bytes, 3, 2).unwrap();
    let avg = average_value(&rect(0, 0, 3, 2), &im);
    assert_eq!(avg, Rgba { r: 9, g: 18, b: 27, a: 255 });
}

#[test]
fn average_truncates_channelwise() {
    // Pixels with red 0 and 10: the truncated mean is 5.
    let bytes = [0, 0, 0, 0, 10, 0, 0, 0];
    let im = RGBAImage::constructor(&bytes, 2, 1).unwrap();
    let avg = average_value(&rect(0, 0, 2, 1), &im);
    assert_eq!(avg, Rgba { r: 5, g: 0, b: 0, a: 0 });
}

#[test]
fn error_of_uniform_region_is_zero() {
    let px = [200u8, 100, 50, 255];
    let mut bytes = Vec::new();
    for _ in 0..16 {
        bytes.extend_from_slice(&px);
    }
    let im = RGBAImage::constructor(&bytes, 4, 4).unwrap();
    assert_eq!(error_image(&rect(0, 0, 4, 4), &im), 0);
    assert_eq!(error_image(&rect(1, 1, 3, 3), &im), 0);
}

#[test]
fn error_has_exact_fixed_point_value() {
    // Red channel 0 and 10 over two pixels: the mean is 5, the summed
    // squared deviation is 50, the root-mean-square in thousandths is
    // isqrt(50_000_000 / 2) = 5000, weighted by 2989 gives 14_945_000,
    // and the quartic root of area 2 is 1.
    let bytes = [0, 0, 0, 0, 10, 0, 0, 0];
    let im = RGBAImage::constructor(&bytes, 2, 1).unwrap();
    assert_eq!(error_image(&rect(0, 0, 2, 1), &im), 14945000);
}

#[test]
fn faint_variation_scores_positive() {
    // A 125x100 black region with a single pixel of blue 1: the average
    // truncates to black, the blue deviation squares to 1, the
    // root-mean-square in thousandths is isqrt(1_000_000 / 12_500) = 8,
    // weighted by 1140 gives 9120, and the quartic root of area 12_500
    // is 10.
    let mut bytes = vec![0u8; 125 * 100 * 4];
    bytes[2] = 1;
    let im = RGBAImage::constructor(&bytes, 125, 100).unwrap();
    assert_eq!(error_image(&rect(0, 0, 125, 100), &im), 91200);
}

#[test]
fn draw_rectangles_paints_average() {
    let bytes = [0, 0, 0, 0, 10, 0, 0, 0];
    let im = RGBAImage::constructor(&bytes, 2, 1).unwrap();
    let mut out = RGBAImage::constructor(&bytes, 2, 1).unwrap();
    draw_rectangles(&mut out, &im, &vec![rect(0, 0, 2, 1)]);
    assert_eq!(out.data(), &vec![5, 0, 0, 0, 5, 0, 0, 0]);
}

#[test]
fn ranking_stays_sorted_under_any_interleaving() {
    let errors = [5u64, 1, 3, 3, 9, 0, 7, 3];
    let mut ranking = Ranking::new();
    for (i, e) in errors.iter().enumerate() {
        ranking.insert(*e, rect(i, 0, i + 1, 1));
        // Ascending after every insertion.
        for j in 1..ranking.len() {
            assert!(ranking.get(j - 1).error <= ranking.get(j).error);
        }
    }
    assert_eq!(ranking.len(), 8);
}

#[test]
fn ranking_ties_keep_insertion_order() {
    let mut ranking = Ranking::new();
    ranking.insert(4, rect(0, 0, 1, 1));
    ranking.insert(4, rect(1, 0, 2, 1));
    ranking.insert(4, rect(2, 0, 3, 1));
    assert_eq!(ranking.get(0).rect, rect(0, 0, 1, 1));
    assert_eq!(ranking.get(1).rect, rect(1, 0, 2, 1));
    assert_eq!(ranking.get(2).rect, rect(2, 0, 3, 1));
}

#[test]
fn extract_max_returns_highest_error() {
    let mut ranking = Ranking::new();
    assert_eq!(ranking.extract_max(), None);
    ranking.insert(5, rect(0, 0, 1, 1));
    ranking.insert(9, rect(1, 0, 2, 1));
    ranking.insert(1, rect(2, 0, 3, 1));
    let top = ranking.extract_max().unwrap();
    assert_eq!(top.error, 9);
    assert_eq!(ranking.len(), 2);
}

#[test]
fn remove_until_skips_small_candidates() {
    let mut ranking = Ranking::new();
    ranking.insert(1, rect(0, 0, 10, 10));
    ranking.insert(2, rect(0, 0, 1, 1));
    ranking.insert(3, rect(0, 0, 2, 2));
    // The two rectangles that are not strictly wider and taller than five
    // pixels are discarded on the way.
    let found = ranking.remove_until(5).unwrap();
    assert_eq!(found, Candidate { error: 1, rect: rect(0, 0, 10, 10) });
    assert_eq!(ranking.len(), 0);

    ranking.insert(2, rect(0, 0, 1, 1));
    assert_eq!(ranking.remove_until(5), None);
    assert_eq!(ranking.len(), 0);

    let mut empty = Ranking::new();
    assert_eq!(empty.remove_until(0), None);
}

#[test]
fn remove_until_keeps_lower_ranked_candidates() {
    // Candidates below the one that is found stay in place.
    let mut ranking = Ranking::new();
    ranking.insert(1, rect(0, 0, 1, 1));
    ranking.insert(2, rect(0, 0, 2, 2));
    ranking.insert(9, rect(0, 0, 10, 10));
    let found = ranking.remove_until(5).unwrap();
    assert_eq!(found, Candidate { error: 9, rect: rect(0, 0, 10, 10) });
    assert_eq!(ranking.len(), 2);
    assert_eq!(ranking.get(0), Candidate { error: 1, rect: rect(0, 0, 1, 1) });
    assert_eq!(ranking.get(1), Candidate { error: 2, rect: rect(0, 0, 2, 2) });
}

fn red_image(w: u32, h: u32) -> RGBAImage {
    let mut bytes = Vec::new();
    for _ in 0..(w * h) {
        bytes.extend_from_slice(&[255, 0, 0, 255]);
    }
    RGBAImage::constructor(&bytes, w, h).unwrap()
}

#[test]
fn zero_iterations_report_done_at_once() {
    let im = red_image(2, 2);
    let source = im.data().clone();
    let mut approx = ImageApproximation::constructor(im, 0);
    assert!(approx.next());
    assert_eq!(approx.current_iter, 0);
    assert_eq!(approx.result_buffer().data(), &source);
    assert_eq!(approx.previous_error, None);
}

#[test]
fn solid_image_converges_immediately() {
    for cap in [1u32, 2, 5, 1000] {
        let im = red_image(2, 2);
        let source = im.data().clone();
        let mut approx = ImageApproximation::constructor(im, cap);
        let mut steps = 0;
        while !approx.next() {
            steps += 1;
            assert!(steps <= cap + 1, "engine failed to stop");
        }
        // The total error is zero from the first split on, so the run stops
        // long before a large cap is spent.
        assert!(approx.current_iter <= 2);
        assert_eq!(approx.previous_error, Some(0));
        assert_eq!(approx.result_buffer().data(), &source);
    }
}

fn gradient_image(w: u32, h: u32) -> RGBAImage {
    let mut bytes = Vec::new();
    for y in 0..h {
        for x in 0..w {
            bytes.extend_from_slice(&[(x * 37 % 256) as u8, (y * 83 % 256) as u8, 77, 255]);
        }
    }
    RGBAImage::constructor(&bytes, w, h).unwrap()
}

#[test]
fn runs_are_deterministic() {
    let run = || {
        let im = gradient_image(16, 12);
        let mut approx = ImageApproximation::constructor(im, 40);
        let mut guard = 0;
        while !approx.next() {
            guard += 1;
            assert!(guard < 1000);
        }
        (
            approx.result_buffer().data().clone(),
            approx.current_iter,
            approx.previous_error,
        )
    };
    let first = run();
    let second = run();
    assert_eq!(first, second);
}

#[test]
fn engine_paints_children_with_averages() {
    // A 2x1 image cannot be split, so the result stays identical while the
    // engine reports being done once the candidate is consumed.
    let bytes = [0, 0, 0, 0, 10, 0, 0, 0];
    let im = RGBAImage::constructor(&bytes, 2, 1).unwrap();
    let mut approx = ImageApproximation::constructor(im, 10);
    let mut guard = 0;
    while !approx.next() {
        guard += 1;
        assert!(guard < 100);
    }
    assert_eq!(approx.result_buffer().data(), &bytes.to_vec());
}

#[test]
fn split_children_partition_parent_area() {
    let r = rect(100, 200, 1000, 1000);
    let splits = r.split();
    assert_eq!(splits.len(), 4);
    let parent_area: u64 = r.area();
    let child_area: u64 = splits.iter().map(|c| c.area()).sum();
    assert_eq!(parent_area, child_area);
    for c in &splits {
        assert!(c.width() < r.width() && c.height() < r.height());
    }
}

#[test]
fn integer_square_root_is_exact() {
    assert_eq!(quadslib::math::isqrt64(0), 0);
    assert_eq!(quadslib::math::isqrt64(1), 1);
    assert_eq!(quadslib::math::isqrt64(15), 3);
    assert_eq!(quadslib::math::isqrt64(16), 4);
    assert_eq!(quadslib::math::isqrt64(24), 4);
    assert_eq!(quadslib::math::isqrt64(25), 5);
    assert_eq!(quadslib::math::isqrt64(u64::MAX), 4294967295);
}
