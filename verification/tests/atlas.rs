use geometrise::atlas::sprite_id_from_path;
use geometrise::{Atlas, MyImage};

fn tiny(c: u8) -> MyImage {
    MyImage::coloured(1, 1, (c, c, c, 255))
}

#[test]
fn sprite_id_reads_file_name() {
    assert_eq!(sprite_id_from_path("src\\objects\\1764.png"), Some(1764));
    assert_eq!(sprite_id_from_path("917.png"), Some(917));
    assert_eq!(sprite_id_from_path("42"), Some(42));
    assert_eq!(sprite_id_from_path("a\\b\\+12.png"), Some(12));
    assert_eq!(sprite_id_from_path("a\\007.tar.gz"), Some(7));
}

#[test]
fn sprite_id_refuses_other_names() {
    assert_eq!(sprite_id_from_path("x\\abc.png"), None);
    assert_eq!(sprite_id_from_path("x\\.png"), None);
    assert_eq!(sprite_id_from_path("x\\+.png"), None);
    assert_eq!(sprite_id_from_path("x\\-5.png"), None);
    assert_eq!(sprite_id_from_path(""), None);
    assert_eq!(sprite_id_from_path("x\\1 2.png"), None);
    // the stem ends at the first dot, even in a directory name
    assert_eq!(sprite_id_from_path("dir.v2\\5.png"), None);
    assert_eq!(sprite_id_from_path("99999999999999999999999.png"), None);
    // forward slashes do not separate directories
    assert_eq!(sprite_id_from_path("a/5.png"), None);
}

#[test]
fn sprite_id_accepts_largest_usize() {
    let path = format!("{}.png", usize::MAX);
    assert_eq!(sprite_id_from_path(&path), Some(usize::MAX));
    let past = format!("{}0.png", usize::MAX);
    assert_eq!(sprite_id_from_path(&past), None);
}

#[test]
fn new_atlas_is_empty() {
    let atlas = Atlas::new();
    assert_eq!(atlas.nb_sprites, 0);
    assert!(atlas.ids.is_empty());
    assert!(atlas.sprites.is_empty());
}

#[test]
fn add_then_get_gives_back_the_sprite() {
    let mut atlas = Atlas::new();
    atlas.add_sprite("objects\\17.png", tiny(1));
    atlas.add_sprite("objects\\3.png", tiny(2));
    assert_eq!(atlas.nb_sprites, 2);
    assert_eq!(atlas.ids, vec![17, 3]);
    assert_eq!(atlas.get_sprite(17), &tiny(1));
    assert_eq!(atlas.get_sprite(3), &tiny(2));
}

#[test]
fn get_sprite_gives_the_first_of_equal_ids() {
    let mut atlas = Atlas::new();
    atlas.add_sprite("5.png", tiny(1));
    atlas.add_sprite("other\\5.png", tiny(2));
    assert_eq!(atlas.nb_sprites, 2);
    assert_eq!(atlas.get_sprite(5), &tiny(1));
}

#[test]
fn load_keeps_order() {
    let atlas = Atlas::load(&["1764.png", "d\\917.png"], vec![tiny(4), tiny(5)]);
    assert_eq!(atlas.nb_sprites, 2);
    assert_eq!(atlas.ids, vec![1764, 917]);
    assert_eq!(atlas.sprites[1], (917, tiny(5)));
}

#[test]
fn load_trim_trims_every_sprite() {
    let t = (0, 0, 0, 0);
    let o = (3, 3, 3, 255);
    let framed = MyImage { pixels: vec![t, t, t, t, o, t, t, t, t], width: 3, height: 3 };
    let atlas = Atlas::load_trim(&["8.png", "9.png"], vec![framed, tiny(6)]);
    assert_eq!(atlas.ids, vec![8, 9]);
    assert_eq!(atlas.get_sprite(8), &MyImage { pixels: vec![o], width: 1, height: 1 });
    assert_eq!(atlas.get_sprite(9), &tiny(6));
}
