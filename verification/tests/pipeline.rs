use iris_rust::casia::{image_ids, image_path_parts, load_grayscale, TOTAL_IMAGES};
use iris_rust::arrays::{Image8, MaskedImage, Volume};
use iris_rust::daugman::{
    argmax_3d, box_blur_3d, contour_integral_circular, partial_derivative_r, strongest_change,
};
use iris_rust::eyelid::{ceil_sqrt, edge_points, find_line, Line, MIN_VOTES, THETA_BINS};
use iris_rust::pairs::pair_indices;
use iris_rust::segment::mask_noise;
use iris_rust::types::ImageId;

fn gray(height: usize, width: usize, pixels: Vec<u8>) -> Image8 {
    assert_eq!(pixels.len(), height * width);
    Image8::from_pixels(height, width, &pixels)
}

fn volume(ny: usize, nx: usize, nr: usize, data: Vec<i64>) -> Volume {
    assert_eq!(data.len(), ny * nx * nr);
    let mut v = Volume::zeros(ny, nx, nr);
    for y in 0..ny {
        for x in 0..nx {
            for r in 0..nr {
                v.set(y, x, r, data[(y * nx + x) * nr + r]);
            }
        }
    }
    v
}

fn cells(v: &Volume) -> Vec<i64> {
    let (ny, nx, nr) = v.dim();
    let mut out = Vec::new();
    for y in 0..ny {
        for x in 0..nx {
            for r in 0..nr {
                out.push(v.get(y, x, r));
            }
        }
    }
    out
}

fn masked_cells(m: &MaskedImage) -> Vec<Option<u8>> {
    let (h, w) = m.dim();
    let mut out = Vec::new();
    for y in 0..h {
        for x in 0..w {
            out.push(m.get(y, x));
        }
    }
    out
}

#[test]
fn contour_sum_clamps_points_into_image() {
    let img = gray(2, 3, vec![1, 2, 3, 4, 5, 6]);
    assert_eq!(contour_integral_circular(&img, &vec![]), 0);
    assert_eq!(contour_integral_circular(&img, &vec![(0, 0), (1, 2)]), 7);
    // (-5, -5) clamps to (0, 0); (9, 1) to (1, 1); (0, 40) to (0, 2).
    assert_eq!(contour_integral_circular(&img, &vec![(-5, -5), (9, 1), (0, 40)]), 1 + 5 + 3);
}

#[test]
fn radial_derivative_starts_at_zero() {
    let hs = volume(1, 2, 3, vec![5, 7, 4, 10, 10, 1]);
    let d = partial_derivative_r(&hs);
    assert_eq!(d.dim(), (1, 2, 3));
    assert_eq!(cells(&d), vec![0, 2, -3, 0, 0, -9]);
}

#[test]
fn box_blur_sums_clipped_windows() {
    let data: Vec<i64> = (1..=8).collect();
    let hs = volume(2, 2, 2, data);
    let b = box_blur_3d(&hs, 3);
    // Every window of half-width 1 covers the whole 2x2x2 grid.
    assert!(cells(&b).iter().all(|&v| v == 36));
    let b1 = box_blur_3d(&hs, 1);
    assert_eq!(cells(&b1), cells(&hs));
    let line = volume(1, 1, 5, vec![1, 2, 3, 4, 5]);
    let bl = box_blur_3d(&line, 3);
    assert_eq!(cells(&bl), vec![3, 6, 9, 12, 9]);
    let huge = box_blur_3d(&line, usize::MAX);
    assert_eq!(cells(&huge), vec![15; 5]);
}

#[test]
fn blur_and_derivative_take_wide_values() {
    let big = 1i64 << 61;
    let hs = volume(1, 1, 3, vec![-big, big, big]);
    let d = partial_derivative_r(&hs);
    assert_eq!(cells(&d), vec![0, big * 2, 0]);
    let b = box_blur_3d(&volume(1, 1, 3, vec![big, big, big]), 3);
    assert_eq!(cells(&b), vec![big * 2, big * 3, big * 2]);
}

#[test]
fn argmax_takes_first_largest() {
    let v = volume(2, 2, 2, vec![1, 9, 3, 9, 0, 2, 9, 4]);
    assert_eq!(argmax_3d(&v), (0, 0, 1));
    let v = volume(1, 1, 3, vec![-5, -2, -3]);
    assert_eq!(argmax_3d(&v), (0, 0, 1));
    let empty = volume(0, 4, 4, vec![]);
    assert_eq!(argmax_3d(&empty), (0, 0, 0));
    let v = volume(2, 3, 1, vec![0, 0, 0, 0, 0, 7]);
    assert_eq!(v.get(1, 2, 0), 7);
    assert_eq!(argmax_3d(&v), (1, 2, 0));
}

#[test]
fn boundary_pipeline_finds_strongest_edge() {
    // Responses grow sharply between radius 1 and 2 at centre (1, 0).
    let mut data = vec![10i64; 2 * 2 * 4];
    let idx = |y: usize, x: usize, r: usize| (y * 2 + x) * 4 + r;
    data[idx(1, 0, 2)] = 40;
    data[idx(1, 0, 3)] = 40;
    let hs = volume(2, 2, 4, data);
    let d = partial_derivative_r(&hs);
    let b = box_blur_3d(&d, 1);
    assert_eq!(argmax_3d(&b), (1, 0, 2));
}

#[test]
fn edge_points_in_row_order() {
    let img = gray(2, 3, vec![0, 5, 0, 255, 0, 1]);
    assert_eq!(edge_points(&img), vec![(0, 1), (1, 0), (1, 2)]);
    assert_eq!(edge_points(&gray(0, 0, vec![])), vec![]);
}

#[test]
fn ceil_sqrt_values() {
    assert_eq!(ceil_sqrt(0), 0);
    assert_eq!(ceil_sqrt(1), 1);
    assert_eq!(ceil_sqrt(2), 2);
    assert_eq!(ceil_sqrt(4), 2);
    assert_eq!(ceil_sqrt(5), 3);
    assert_eq!(ceil_sqrt(280 * 280 + 320 * 320), 426);
    assert_eq!(ceil_sqrt(0x8000_0000), 46341);
    assert_eq!(ceil_sqrt(0x2000_0000_0000_0000), 1518500250);
    assert_eq!(ceil_sqrt(1518500249 * 1518500249), 1518500249);
    let n = 2 * (1u64 << 29) * (1u64 << 29);
    assert_eq!(ceil_sqrt(n), 759250125);
}

fn votes_at(n: usize, theta: usize, rho: i32) -> Vec<Vec<i32>> {
    (0..n)
        .map(|p| {
            (0..THETA_BINS)
                .map(|t| if t == theta { rho } else { (p as i32 % 7) * 3 - 9 + t as i32 % 5 })
                .collect()
        })
        .collect()
}

#[test]
fn find_line_picks_peak_with_enough_votes() {
    let votes = votes_at(40, 10, 5);
    assert_eq!(find_line(20, 30, &votes), Some(Line { theta_deg: 10, rho: 5 }));
    let few = votes_at(MIN_VOTES as usize - 1, 10, 5);
    assert_eq!(find_line(20, 30, &few), None);
}

#[test]
fn find_line_on_a_long_strip() {
    let votes = votes_at(40, 90, 2);
    assert_eq!(find_line(3, 40000, &votes), Some(Line { theta_deg: 90, rho: 2 }));
}

#[test]
fn find_line_rejects_small_or_empty() {
    let votes = votes_at(40, 10, 5);
    assert_eq!(find_line(2, 30, &votes), None);
    assert_eq!(find_line(30, 2, &votes), None);
    assert_eq!(find_line(30, 30, &vec![]), None);
}

#[test]
fn find_line_ties_go_to_first_angle() {
    let votes: Vec<Vec<i32>> = (0..30).map(|_| vec![-3; THETA_BINS]).collect();
    assert_eq!(find_line(10, 10, &votes), Some(Line { theta_deg: 0, rho: -3 }));
    // Out-of-range distances cast no vote.
    let far: Vec<Vec<i32>> = (0..30).map(|_| vec![1000; THETA_BINS]).collect();
    assert_eq!(find_line(10, 10, &far), None);
}

#[test]
fn noise_mask_covers_eyelids_and_lashes() {
    let img = gray(4, 2, vec![100, 200, 50, 200, 100, 100, 100, 90]);
    let top = vec![Some(0), None];
    let bottom = vec![None, Some(3)];
    let masked = masked_cells(&mask_noise(&img, &top, &bottom));
    assert_eq!(masked.len(), 8);
    assert_eq!(
        masked,
        vec![None, Some(200), None, Some(200), Some(100), Some(100), Some(100), None]
    );
    let clear = masked_cells(&mask_noise(&img, &vec![None, None], &vec![None, None]));
    assert_eq!(clear[2], None);
    assert_eq!(clear[0], Some(100));
}

#[test]
fn casia_listing() {
    let ids = image_ids();
    assert_eq!(ids.len(), TOTAL_IMAGES);
    assert_eq!(ids[0], ImageId { subject: 1, session: 1, index: 1 });
    assert_eq!(ids[3], ImageId { subject: 1, session: 2, index: 1 });
    assert_eq!(ids[6], ImageId { subject: 1, session: 2, index: 4 });
    assert_eq!(ids[7], ImageId { subject: 2, session: 1, index: 1 });
    assert_eq!(ids[755], ImageId { subject: 108, session: 2, index: 4 });
    let mut sorted = ids.clone();
    sorted.sort_by_key(|i| (i.subject, i.session, i.index));
    sorted.dedup();
    assert_eq!(sorted.len(), TOTAL_IMAGES);
}

#[test]
fn casia_paths() {
    let (a, b, c) = image_path_parts(ImageId { subject: 1, session: 1, index: 1 });
    assert_eq!((a.as_str(), b.as_str(), c.as_str()), ("001", "1", "001_1_1.bmp"));
    let (a, b, c) = image_path_parts(ImageId { subject: 108, session: 2, index: 4 });
    assert_eq!((a.as_str(), b.as_str(), c.as_str()), ("108", "2", "108_2_4.bmp"));
    let (a, _, c) = image_path_parts(ImageId { subject: 42, session: 2, index: 3 });
    assert_eq!((a.as_str(), c.as_str()), ("042", "042_2_3.bmp"));
    let (a, b, c) = image_path_parts(ImageId { subject: 12345, session: 17, index: 200 });
    assert_eq!((a.as_str(), b.as_str(), c.as_str()), ("12345", "17", "12345_17_200.bmp"));
}

#[test]
fn pair_counts_on_casia() {
    let ids = image_ids();
    let intra = pair_indices(&ids, true);
    let inter = pair_indices(&ids, false);
    assert_eq!(intra.len(), 2268);
    assert_eq!(inter.len(), 283122);
    assert_eq!(intra.len() + inter.len(), TOTAL_IMAGES * (TOTAL_IMAGES - 1) / 2);
    assert_eq!(intra[0], (0, 1));
    assert_eq!(inter[0], (0, 7));
}

#[test]
fn pairs_in_row_order() {
    let id = |subject: u16| ImageId { subject, session: 1, index: 1 };
    let ids = vec![id(1), id(2), id(1), id(2)];
    assert_eq!(pair_indices(&ids, true), vec![(0, 2), (1, 3)]);
    assert_eq!(pair_indices(&ids, false), vec![(0, 1), (0, 3), (1, 2), (2, 3)]);
    assert_eq!(pair_indices(&vec![], true), vec![]);
}

fn image_pixels(img: &Image8) -> Vec<u8> {
    let (h, w) = img.dim();
    let mut out = Vec::new();
    for y in 0..h {
        for x in 0..w {
            out.push(img.get(y, x));
        }
    }
    out
}

fn bmp_bytes(width: u32, height: u32, pixels: Vec<u8>) -> Vec<u8> {
    let img = image::GrayImage::from_raw(width, height, pixels).expect("pixel count");
    let mut out = std::io::Cursor::new(Vec::new());
    image::DynamicImage::ImageLuma8(img)
        .write_to(&mut out, image::ImageFormat::Bmp)
        .expect("encode bmp");
    out.into_inner()
}

#[test]
fn grayscale_decoding_keeps_shape_and_pixels() {
    let pixels: Vec<u8> = vec![0, 17, 34, 51, 68, 85, 102, 119, 136, 153, 170, 255];
    let bytes = bmp_bytes(4, 3, pixels.clone());
    let img = load_grayscale(&bytes).expect("decodes");
    assert_eq!(img.dim(), (3, 4));
    assert_eq!(image_pixels(&img), pixels);
}

#[test]
fn grayscale_decoding_refuses_other_bytes() {
    assert!(load_grayscale(&Vec::new()).is_none());
    assert!(load_grayscale(&b"not an image at all".to_vec()).is_none());
    let mut cut = bmp_bytes(4, 3, vec![9; 12]);
    cut.truncate(20);
    assert!(load_grayscale(&cut).is_none());
}

#[test]
fn strongest_change_follows_the_blur() {
    // Radial changes 0, 25, 0, 20, 20.
    let hs = volume(1, 1, 5, vec![0, 25, 25, 45, 65]);
    // Half-width 0: the largest single change.
    assert_eq!(strongest_change(&hs, 1), Some((0, 0, 1)));
    // Half-width 1: window sums 25, 25, 45, 40, 40.
    assert_eq!(strongest_change(&hs, 3), Some((0, 0, 2)));
    assert_eq!(strongest_change(&volume(0, 2, 2, vec![]), 3), Some((0, 0, 0)));
}

#[test]
fn strongest_change_refuses_out_of_range_sums() {
    // A radial change that leaves the i64 range.
    assert_eq!(strongest_change(&volume(1, 1, 2, vec![i64::MIN, i64::MAX]), 1), None);
    // Changes that fit, but whose window sum does not.
    let hs = volume(1, 1, 3, vec![-(1i64 << 62), (1i64 << 62) - 1, 1i64 << 62]);
    assert_eq!(strongest_change(&hs, 1), Some((0, 0, 1)));
    assert_eq!(strongest_change(&hs, 3), None);
}

#[test]
fn pair_runs_split_every_pair_once() {
    let id = |subject: u16| ImageId { subject, session: 1, index: 1 };
    let ids = vec![id(3), id(1), id(3), id(3), id(2), id(1)];
    let intra = pair_indices(&ids, true);
    let inter = pair_indices(&ids, false);
    assert_eq!(intra, vec![(0, 2), (0, 3), (1, 5), (2, 3)]);
    assert_eq!(intra.len() + inter.len(), 6 * 5 / 2);
    for i in 0..ids.len() {
        for j in i + 1..ids.len() {
            assert!(intra.contains(&(i, j)) != inter.contains(&(i, j)));
        }
    }
}
