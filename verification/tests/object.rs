use geometrise::{Atlas, MyImage, Object};

fn obj(id: usize, rotation: usize, coors: (isize, isize), color: (u8, u8, u8)) -> Object {
    Object { id, rotation, coors, size_bits: 1.5f32.to_bits(), color }
}

fn atlas() -> Atlas {
    let mut atlas = Atlas::new();
    atlas.add_sprite("11.png", MyImage::coloured(1, 1, (1, 1, 1, 255)));
    atlas.add_sprite("22.png", MyImage::coloured(1, 1, (2, 2, 2, 255)));
    atlas
}

#[test]
fn apply_mutation_wraps_rotation() {
    let mut o = obj(1, 5, (3, 3), (9, 9, 9));
    o.apply_mutation(None, -10, (0, 0), 10, 10);
    assert_eq!(o.rotation, 355);
    let mut o = obj(1, 355, (3, 3), (9, 9, 9));
    o.apply_mutation(None, 9, (0, 0), 10, 10);
    assert_eq!(o.rotation, 4);
}

#[test]
fn apply_mutation_clamps_to_canvas_and_resets_colour() {
    let mut o = obj(1, 0, (0, 5), (9, 9, 9));
    o.apply_mutation(Some(7), 0, (-20, 19), 10, 10);
    assert_eq!(o.id, 7);
    assert_eq!(o.coors, (0, 10));
    assert_eq!(o.color, (0, 0, 0));
    assert_eq!(o.size_bits, 1.5f32.to_bits());
    let mut o = obj(1, 0, (4, 4), (9, 9, 9));
    o.apply_mutation(None, 3, (5, -2), 10, 10);
    assert_eq!((o.id, o.rotation, o.coors), (1, 3, (9, 2)));
}

#[test]
fn mutate_stays_in_bounds() {
    let atlas = atlas();
    let canvas = MyImage::empty(30, 20);
    let mut o = obj(11, 359, (0, 20), (200, 200, 200));
    for _ in 0..200 {
        let before = o;
        o.mutate(&atlas, &canvas, 2.5f32.to_bits());
        assert!(o.rotation < 360);
        assert!(0 <= o.coors.0 && o.coors.0 <= 30);
        assert!(0 <= o.coors.1 && o.coors.1 <= 20);
        assert!((o.coors.0 - before.coors.0).abs() <= 20);
        assert_eq!(o.color, (0, 0, 0));
        assert!(o.id == 11 || o.id == 22);
        assert_eq!(o.size_bits, 2.5f32.to_bits());
    }
}

#[test]
fn clone_and_mutate_leaves_the_original() {
    let atlas = atlas();
    let canvas = MyImage::empty(30, 20);
    let o = obj(11, 100, (10, 10), (5, 6, 7));
    let c = o.clone_and_mutate(&atlas, &canvas, 0.5f32.to_bits());
    assert_eq!(o, obj(11, 100, (10, 10), (5, 6, 7)));
    assert_eq!(c.color, (0, 0, 0));
    assert!((90..110).contains(&c.rotation));
    assert_eq!(c.size_bits, 0.5f32.to_bits());
}

#[test]
fn generate_randoms_draws_within_bounds() {
    let atlas = atlas();
    let canvas = MyImage::empty(5, 4);
    let sizes: Vec<u32> = (0..50).map(|i| (i as f32).to_bits()).collect();
    let objects = Object::generate_randoms(50, &atlas, &canvas, &sizes);
    assert_eq!(objects.len(), 50);
    for (i, o) in objects.iter().enumerate() {
        assert!(o.id == 11 || o.id == 22);
        assert!(o.rotation < 360);
        assert!((0..5).contains(&o.coors.0));
        assert!((0..4).contains(&o.coors.1));
        assert!(o.color.0 < 255 && o.color.1 < 255 && o.color.2 < 255);
        assert_eq!(o.size_bits, sizes[i]);
    }
}

#[test]
fn refill_randoms_redraws_in_place() {
    let atlas = atlas();
    let canvas = MyImage::empty(2, 2);
    let mut objects = vec![obj(99, 1000, (-50, 50), (255, 255, 255)); 10];
    let sizes = vec![2.0f32.to_bits(); 10];
    Object::refill_randoms(&mut objects, &atlas, &canvas, &sizes);
    assert_eq!(objects.len(), 10);
    for o in &objects {
        assert!(o.id == 11 || o.id == 22);
        assert!(o.rotation < 360);
        assert!((0..2).contains(&o.coors.0) && (0..2).contains(&o.coors.1));
        assert_eq!(o.size_bits, 2.0f32.to_bits());
    }
}

#[test]
fn difference_adds_all_terms() {
    let a = obj(1, 30, (0, 0), (10, 0, 0));
    let b = obj(2, 10, (3, -4), (0, 0, 5));
    assert_eq!(a.difference(&b, 5), 100 + 200 + 14 + 5 + 15);
}

#[test]
fn difference_of_rotation_is_signed() {
    let a = obj(1, 10, (0, 0), (0, 0, 0));
    let b = obj(1, 30, (0, 0), (0, 0, 0));
    assert_eq!(a.difference(&b, 0), -200);
    assert_eq!(b.difference(&a, 0), 200);
}

#[test]
fn difference_with_itself_is_zero() {
    let a = obj(4, 123, (7, -8), (1, 2, 3));
    assert_eq!(a.difference(&a, 0), 0);
}

#[test]
fn generate_nothing_needs_no_atlas() {
    let empty = Atlas::new();
    let canvas = MyImage::empty(0, 0);
    assert!(Object::generate_randoms(0, &empty, &canvas, &vec![]).is_empty());
    let mut none: Vec<Object> = vec![];
    Object::refill_randoms(&mut none, &empty, &canvas, &vec![]);
    assert!(none.is_empty());
}

#[test]
fn difference_both_ways_cancels_rotation() {
    let a = obj(1, 30, (0, 0), (10, 0, 0));
    let b = obj(2, 10, (3, -4), (0, 0, 5));
    assert_eq!(a.difference(&b, 5) + b.difference(&a, -5), 2 * (100 + 14 + 15));
}

#[test]
fn from_draws_takes_the_drawn_sprite() {
    let atlas = atlas();
    let o = Object::from_draws(&atlas, 1, 45, 3, 4, (1, 2, 3), 7);
    assert_eq!(o, Object { id: 22, rotation: 45, coors: (3, 4), size_bits: 7, color: (1, 2, 3) });
    assert_eq!(Object::from_draws(&atlas, 0, 0, 0, 0, (0, 0, 0), 0).id, 11);
}

#[test]
fn new_sprite_switches_only_on_zero_roll() {
    let atlas = atlas();
    assert_eq!(Object::new_sprite(&atlas, 0, 1), Some(22));
    assert_eq!(Object::new_sprite(&atlas, 0, 0), Some(11));
    assert_eq!(Object::new_sprite(&atlas, 3, 1), None);
}
