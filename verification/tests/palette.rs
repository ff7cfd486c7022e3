use geometrise::palette::GROUPS;
use geometrise::{Barycentre, GroupStats, MyImage};

fn centre(r: u8, g: u8, b: u8, a: u8) -> Barycentre {
    Barycentre { r, g, b, a }
}

#[test]
fn distance_is_rounded_down_euclidean() {
    assert_eq!(centre(0, 0, 0, 0).distance(&(3, 4, 0, 0)), 5);
    assert_eq!(centre(1, 1, 0, 0).distance(&(0, 0, 0, 0)), 1);
    assert_eq!(centre(255, 255, 255, 255).distance(&(0, 0, 0, 0)), 510);
    assert_eq!(centre(10, 20, 30, 40).distance(&(10, 20, 30, 40)), 0);
    assert_eq!(centre(0, 0, 0, 0).distance(&(2, 2, 2, 2)), 4);
    assert_eq!(centre(0, 0, 0, 0).distance(&(2, 2, 2, 1)), 3);
}

#[test]
fn group_stats_assigns_to_nearest_first_on_tie() {
    let img = MyImage {
        pixels: vec![(10, 10, 10, 10), (250, 250, 250, 250), (128, 128, 128, 128), (0, 0, 0, 0)],
        width: 2,
        height: 2,
    };
    let centres = vec![centre(0, 0, 0, 0), centre(255, 255, 255, 255), centre(0, 0, 0, 0)];
    let stats = img.group_stats(&centres);
    assert_eq!(stats.len(), 3);
    // (128,..) is at 256 from the first centre and 254 from the second
    assert_eq!(stats[0], GroupStats { count: 2, r: 10, g: 10, b: 10, a: 10 });
    assert_eq!(stats[1], GroupStats { count: 2, r: 378, g: 378, b: 378, a: 378 });
    assert_eq!(stats[2], GroupStats { count: 0, r: 0, g: 0, b: 0, a: 0 });
    let total: u64 = stats.iter().map(|s| s.count).sum();
    assert_eq!(total, 4);
}

#[test]
fn mean_rounds_down_and_is_none_when_empty() {
    let s = GroupStats { count: 2, r: 378, g: 3, b: 0, a: 510 };
    assert_eq!(s.mean(), Some(centre(189, 1, 0, 255)));
    assert_eq!(GroupStats { count: 0, r: 0, g: 0, b: 0, a: 0 }.mean(), None);
}

#[test]
fn background_of_uniform_image_is_its_colour() {
    let img = MyImage::coloured(4, 3, (7, 8, 9, 10));
    assert_eq!(img.find_best_bg_color(), (7, 8, 9, 10));
}

#[test]
fn background_of_two_colour_image_is_a_cluster_mean() {
    let mut pixels = vec![(200, 0, 0, 255); 12];
    for p in pixels.iter_mut().take(3) {
        *p = (0, 0, 200, 255);
    }
    let img = MyImage { pixels, width: 4, height: 3 };
    let c = img.find_best_bg_color();
    let possible = [(200, 0, 0, 255), (0, 0, 200, 255), (150, 0, 50, 255)];
    assert!(possible.contains(&c));
    assert_eq!(GROUPS, 20);
}

#[test]
fn cluster_colour_runs_all_rounds() {
    let img = MyImage {
        pixels: vec![(0, 0, 0, 255), (0, 0, 0, 255), (200, 200, 200, 255)],
        width: 3,
        height: 1,
    };
    let white = centre(255, 255, 255, 255);
    let redraws = vec![vec![white; 20]; 20];
    // one round would give the mean of all pixels, (66, 66, 66, 255)
    assert_eq!(img.cluster_colour(centre(0, 0, 0, 255), &redraws), (0, 0, 0, 255));
}

#[test]
fn cluster_colour_of_empty_image_is_a_redraw() {
    let img = MyImage::empty(0, 0);
    let mut redraws = vec![vec![centre(1, 1, 1, 1); 20]; 20];
    redraws[19][0] = centre(9, 8, 7, 6);
    assert_eq!(img.cluster_colour(centre(0, 0, 0, 0), &redraws), (9, 8, 7, 6));
}
