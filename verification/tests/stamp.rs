use geometrise::stamp::{footprint, score_blend};
use geometrise::MyImage;

const S: (u8, u8, u8, u8) = (200, 100, 50, 255);
const T: (u8, u8, u8, u8) = (0, 0, 0, 0);

fn sprite() -> MyImage {
    MyImage { pixels: vec![S, S, T, (1, 1, 1, 10)], width: 2, height: 2 }
}

#[test]
fn footprint_skips_transparent_pixels() {
    let cells = footprint(&sprite(), 3, 3, (1, 1), (0, 0));
    assert_eq!(cells, vec![(0, 4), (1, 5), (3, 8)]);
}

#[test]
fn footprint_subtracts_offset() {
    let cells = footprint(&sprite(), 3, 3, (2, 2), (1, 1));
    assert_eq!(cells, vec![(0, 4), (1, 5), (3, 8)]);
}

#[test]
fn footprint_moves_negative_coordinates_to_zero() {
    let cells = footprint(&sprite(), 3, 3, (0, 0), (1, 1));
    // (0,0) -> (-1,-1) lands on (0,0); (1,0) -> (0,-1) lands on (0,0); (1,1) -> (0,0)
    assert_eq!(cells, vec![(0, 0), (1, 0), (3, 0)]);
}

#[test]
fn footprint_leaves_out_pixels_past_the_edge() {
    let cells = footprint(&sprite(), 3, 3, (2, 2), (0, 0));
    assert_eq!(cells, vec![(0, 8)]);
    assert!(footprint(&sprite(), 3, 3, (3, 0), (0, 0)).is_empty());
}

#[test]
fn score_blend_counts_gap_before_minus_gap_after() {
    let canvas = MyImage::coloured(2, 1, (0, 0, 0, 255));
    let goal = MyImage::coloured(2, 1, (100, 100, 100, 255));
    let cells = vec![(0usize, 1usize)];
    assert_eq!(score_blend(&canvas, &goal, &cells, &vec![(50, 50, 50, 255)]), 150);
    assert_eq!(score_blend(&canvas, &goal, &cells, &vec![(250, 100, 100, 0)]), 300 - 150);
    assert_eq!(score_blend(&canvas, &goal, &vec![], &vec![]), 0);
}

#[test]
fn score_blend_can_be_negative() {
    let canvas = MyImage::coloured(1, 1, (100, 100, 100, 255));
    let goal = MyImage::coloured(1, 1, (100, 100, 100, 255));
    assert_eq!(score_blend(&canvas, &goal, &vec![(0, 0)], &vec![(0, 100, 255, 255)]), -255);
}

#[test]
fn score_is_drop_of_difference_when_painted() {
    let canvas = MyImage {
        pixels: vec![(0, 0, 0, 255), (10, 20, 30, 255), (255, 255, 255, 255), (5, 5, 5, 5)],
        width: 2,
        height: 2,
    };
    let goal = MyImage {
        pixels: vec![(100, 0, 0, 255), (10, 20, 30, 255), (0, 0, 0, 255), (6, 6, 6, 6)],
        width: 2,
        height: 2,
    };
    let cells = vec![(0usize, 0usize), (1, 2), (2, 1)];
    let blended = vec![(60, 0, 0, 255), (100, 100, 100, 255), (10, 20, 40, 255)];
    let score = score_blend(&canvas, &goal, &cells, &blended);
    let mut painted = canvas.clone();
    for (k, (_, c)) in cells.iter().enumerate() {
        painted.pixels[*c] = blended[k];
    }
    let before = canvas.difference(&goal) as i64;
    let after = painted.difference(&goal) as i64;
    assert_eq!(before - after, score);
}
