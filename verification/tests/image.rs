use geometrise::MyImage;

fn image(width: usize, height: usize, pixels: Vec<(u8, u8, u8, u8)>) -> MyImage {
    assert_eq!(pixels.len(), width * height);
    MyImage { pixels, width, height }
}

const O: (u8, u8, u8, u8) = (9, 9, 9, 255);
const T: (u8, u8, u8, u8) = (1, 2, 3, 0);

#[test]
fn empty_is_transparent_black() {
    let img = MyImage::empty(2, 3);
    assert_eq!(img.width, 2);
    assert_eq!(img.height, 3);
    assert_eq!(img.pixels, vec![(0, 0, 0, 0); 6]);
}

#[test]
fn coloured_fills_every_pixel() {
    let img = MyImage::coloured(3, 2, (255, 255, 255, 255));
    assert_eq!(img.pixels.len(), 6);
    assert!(img.pixels.iter().all(|p| *p == (255, 255, 255, 255)));
}

#[test]
fn zero_sized_image_has_no_pixels() {
    let img = MyImage::coloured(0, 5, (1, 2, 3, 4));
    assert!(img.pixels.is_empty());
    assert!(img.pix_buf().is_empty());
}

#[test]
fn pix_buf_lists_rgba_bytes_row_by_row() {
    let img = image(2, 2, vec![(1, 2, 3, 4), (5, 6, 7, 8), (9, 10, 11, 12), (13, 14, 15, 16)]);
    assert_eq!(img.pix_buf(), (1u8..=16).collect::<Vec<u8>>());
}

#[test]
fn get_pixel_is_row_major() {
    let img = image(3, 2, vec![(0, 0, 0, 0), (1, 0, 0, 0), (2, 0, 0, 0), (3, 0, 0, 0), (4, 0, 0, 0), (5, 0, 0, 0)]);
    assert_eq!(img.get_pixel(2, 0), (2, 0, 0, 0));
    assert_eq!(img.get_pixel(0, 1), (3, 0, 0, 0));
    assert_eq!(img.get_pixel(1, 1), (4, 0, 0, 0));
}

#[test]
fn trim_removes_equal_transparent_border() {
    let img = image(4, 4, vec![
        T, T, T, T,
        T, O, (8, 8, 8, 1), T,
        T, (7, 7, 7, 2), O, T,
        T, T, T, T,
    ]);
    let t = img.trim();
    assert_eq!(t.width, 2);
    assert_eq!(t.height, 2);
    assert_eq!(t.pixels, vec![O, (8, 8, 8, 1), (7, 7, 7, 2), O]);
}

#[test]
fn trim_uses_smallest_border() {
    // two clear rows on top, one clear column left and right, none at the bottom
    let img = image(4, 4, vec![
        T, T, T, T,
        T, T, T, T,
        T, O, O, T,
        T, O, O, T,
    ]);
    let t = img.trim();
    assert_eq!((t.width, t.height), (4, 4));
    assert_eq!(t.pixels, img.pixels);
}

#[test]
fn trim_single_opaque_pixel() {
    let mut pixels = vec![T; 25];
    pixels[12] = O;
    let t = image(5, 5, pixels).trim();
    assert_eq!((t.width, t.height), (1, 1));
    assert_eq!(t.pixels, vec![O]);
}

#[test]
fn trim_keeps_uneven_borders() {
    // one clear row on top, two at the bottom, two columns on each side
    let mut pixels = vec![T; 6 * 5];
    pixels[1 * 6 + 2] = O;
    pixels[2 * 6 + 3] = O;
    let img = image(6, 5, pixels);
    let t = img.trim();
    assert_eq!((t.width, t.height), (4, 3));
    assert_eq!(t.get_pixel(1, 0), O);
    assert_eq!(t.get_pixel(2, 1), O);
    assert_eq!(t.get_pixel(0, 0).3, 0);
}

#[test]
fn trim_twice_is_trim_once() {
    let mut pixels = vec![T; 7 * 6];
    pixels[2 * 7 + 3] = O;
    pixels[3 * 7 + 4] = (4, 4, 4, 9);
    let once = image(7, 6, pixels).trim();
    let twice = once.trim();
    assert_eq!(once, twice);
    assert!(once.width < 7);
}

#[test]
fn trim_of_empty_image() {
    let t = MyImage::empty(0, 0).trim();
    assert_eq!((t.width, t.height), (0, 0));
}

#[test]
fn difference_sums_colour_gaps_and_ignores_alpha() {
    let a = image(2, 1, vec![(10, 20, 30, 0), (0, 0, 0, 0)]);
    let b = image(2, 1, vec![(0, 25, 30, 255), (255, 1, 2, 7)]);
    assert_eq!(a.difference(&b), 15 + 258);
}

#[test]
fn difference_is_zero_on_itself_and_symmetric() {
    let a = image(2, 2, vec![(1, 2, 3, 4), (50, 60, 70, 80), (255, 0, 255, 0), (9, 9, 9, 9)]);
    let b = image(2, 2, vec![(4, 3, 2, 1), (0, 100, 70, 80), (0, 255, 0, 255), (9, 8, 7, 6)]);
    assert_eq!(a.difference(&a), 0);
    assert_eq!(a.difference(&b), b.difference(&a));
}

#[test]
fn difference_triangle_inequality() {
    let a = image(1, 2, vec![(0, 0, 0, 0), (200, 10, 0, 0)]);
    let b = image(1, 2, vec![(100, 100, 100, 0), (0, 0, 0, 0)]);
    let c = image(1, 2, vec![(50, 255, 3, 0), (90, 90, 90, 0)]);
    assert!(a.difference(&c) <= a.difference(&b) + b.difference(&c));
}

#[test]
fn difference_is_zero_exactly_when_colours_agree() {
    let a = image(2, 1, vec![(1, 2, 3, 4), (5, 6, 7, 8)]);
    let b = image(2, 1, vec![(1, 2, 3, 200), (5, 6, 7, 0)]);
    let c = image(2, 1, vec![(1, 2, 3, 4), (5, 6, 8, 8)]);
    assert_eq!(a.difference(&b), 0);
    assert_eq!(a.difference(&c), 1);
}

#[test]
fn difference_reads_only_the_first_cells() {
    let a = MyImage { pixels: vec![(0, 0, 0, 0), (9, 9, 9, 9), (100, 100, 100, 0)], width: 2, height: 1 };
    let b = image(2, 1, vec![(1, 0, 0, 0), (9, 9, 9, 9)]);
    assert_eq!(a.difference(&b), 1);
}
