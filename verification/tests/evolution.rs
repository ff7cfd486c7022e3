use geometrise::evolution::{pad_with_copies, parents, rank, rank_order};
use geometrise::{Competitor, Object};

fn obj(id: usize) -> Object {
    Object { id, rotation: 0, coors: (0, 0), size_bits: 0, color: (0, 0, 0) }
}

fn competitors(scores: &[i64]) -> Vec<Competitor> {
    scores.iter().enumerate().map(|(i, s)| Competitor { object: obj(i), score: *s }).collect()
}

#[test]
fn rank_sorts_by_score_descending_and_stably() {
    let ranked = rank(competitors(&[3, 5, 3, 1, 5]));
    let ids: Vec<usize> = ranked.iter().map(|c| c.object.id).collect();
    assert_eq!(ids, vec![1, 4, 0, 2, 3]);
    let scores: Vec<i64> = ranked.iter().map(|c| c.score).collect();
    assert_eq!(scores, vec![5, 5, 3, 3, 1]);
}

#[test]
fn rank_handles_negative_and_empty() {
    assert!(rank(vec![]).is_empty());
    let ranked = rank(competitors(&[-4, i64::MIN, 0, i64::MAX]));
    let ids: Vec<usize> = ranked.iter().map(|c| c.object.id).collect();
    assert_eq!(ids, vec![3, 2, 0, 1]);
}

#[test]
fn rank_twice_changes_nothing() {
    let once = rank(competitors(&[2, 9, 2, 7, 9, 0]));
    let twice = rank(once.clone());
    assert_eq!(once, twice);
}

#[test]
fn parents_keeps_the_best_ninth_plus_one() {
    let ranked = rank(competitors(&[1, 2, 3, 4, 5]));
    let p = parents(&ranked, 18);
    assert_eq!(p.iter().map(|o| o.id).collect::<Vec<_>>(), vec![4, 3, 2]);
    assert_eq!(parents(&ranked, 0).len(), 1);
    assert_eq!(parents(&ranked, 100).len(), 5);
    assert!(parents(&vec![], 18).is_empty());
}

#[test]
fn pad_with_copies_fills_up_with_known_objects() {
    let previous = vec![obj(10), obj(20)];
    let c = pad_with_copies(&previous, 7);
    assert_eq!(c.len(), 7);
    assert_eq!(&c[..2], &previous[..]);
    assert!(c[2..].iter().all(|o| o.id == 10 || o.id == 20));
    assert_eq!(pad_with_copies(&previous, 1), previous);
    assert!(pad_with_copies(&vec![], 0).is_empty());
}

#[test]
fn rank_order_lists_positions_by_key() {
    assert_eq!(rank_order(&vec![3, 5, 3, 1, 5]), vec![1, 4, 0, 2, 3]);
    assert!(rank_order(&vec![]).is_empty());
}

#[test]
fn next_generation_puts_eight_mutants_after_each_parent() {
    use_next_generation();
}

fn use_next_generation() {
    let mut atlas = geometrise::Atlas::new();
    atlas.add_sprite("3.png", geometrise::MyImage::coloured(1, 1, (1, 1, 1, 255)));
    let canvas = geometrise::MyImage::empty(50, 50);
    let ranked = rank(competitors(&[1, 9, 5]));
    let sizes: Vec<u32> = (0..16).map(|i| i as u32).collect();
    let next = geometrise::evolution::next_generation(&ranked, 10, &atlas, &canvas, &sizes);
    assert_eq!(next.len(), 18);
    assert_eq!(next[0], obj(1));
    assert_eq!(next[9], obj(2));
    for k in 0..18 {
        if k % 9 != 0 {
            assert_eq!(next[k].size_bits, (8 * (k / 9) + k % 9 - 1) as u32);
            assert_eq!(next[k].color, (0, 0, 0));
            assert!(next[k].id == 3 || next[k].id == next[9 * (k / 9)].id);
        }
    }
}

#[test]
fn copies_from_picks_appends_the_picked_objects() {
    let previous = vec![obj(10), obj(20), obj(30)];
    let c = geometrise::evolution::copies_from_picks(&previous, &vec![2, 0, 2]);
    assert_eq!(c, vec![obj(10), obj(20), obj(30), obj(30), obj(10), obj(30)]);
    assert_eq!(geometrise::evolution::copies_from_picks(&previous, &vec![]), previous);
}
