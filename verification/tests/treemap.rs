use rustree::treemap::{file_hue, Bounds, Treemap};

#[test]
fn new_treemap_is_black_and_empty() {
    let map = Treemap::new(4, 3);
    assert_eq!(map.width(), 4);
    assert_eq!(map.height(), 3);
    assert_eq!(map.pixels(), &[0u8; 36][..]);
    assert_eq!(map.rect_count(), 0);
    assert!(map.hit_pixel(0, 0).is_none());
    assert!(map.bounds_of(&[]).is_none());
}

#[test]
fn fill_paints_exactly_the_rectangle() {
    let mut map = Treemap::new(4, 3);
    map.fill(1, 1, 3, 2, [9, 8, 7]);
    for y in 0..3u32 {
        for x in 0..4u32 {
            let offset = ((y * 4 + x) * 3) as usize;
            let expected: [u8; 3] = if (1..3).contains(&x) && y == 1 { [9, 8, 7] } else { [0, 0, 0] };
            assert_eq!(&map.pixels()[offset..offset + 3], &expected, "pixel {},{}", x, y);
        }
    }
    map.fill(0, 0, 4, 3, [1, 2, 3]);
    assert!(map.pixels().chunks(3).all(|p| p == [1, 2, 3]));
    map.fill(2, 2, 2, 3, [5, 5, 5]);
    assert!(map.pixels().chunks(3).all(|p| p == [1, 2, 3]));
}

#[test]
fn hit_finds_the_deepest_rectangle() {
    let mut map = Treemap::new(10, 10);
    map.remember(0, 0, 10, 10, 0, &[]);
    map.remember(0, 0, 6, 10, 1, &[11]);
    map.remember(0, 0, 6, 4, 2, &[11, 12]);
    map.remember(6, 0, 10, 10, 1, &[13]);
    assert_eq!(map.rect_count(), 4);
    assert_eq!(map.hit_pixel(1, 1).unwrap().chain, &[11, 12]);
    assert_eq!(map.hit_pixel(1, 5).unwrap().chain, &[11]);
    assert_eq!(map.hit_pixel(9, 9).unwrap().chain, &[13]);
    assert!(map.hit_pixel(10, 0).is_none());
    assert!(map.hit_pixel(0, 10).is_none());
}

#[test]
fn hit_prefers_the_last_of_equally_deep_rectangles() {
    let mut map = Treemap::new(4, 4);
    map.remember(0, 0, 4, 4, 1, &[1]);
    map.remember(0, 0, 4, 4, 1, &[2]);
    assert_eq!(map.hit_pixel(2, 2).unwrap().chain, &[2]);
}

#[test]
fn bounds_of_finds_the_first_rectangle_of_a_chain() {
    let mut map = Treemap::new(10, 10);
    map.remember(0, 0, 10, 10, 0, &[]);
    map.remember(1, 2, 5, 6, 1, &[7, 8]);
    map.remember(5, 2, 9, 6, 1, &[7, 8]);
    assert_eq!(map.bounds_of(&[7, 8]), Some(Bounds { x0: 1, y0: 2, x1: 5, y1: 6 }));
    assert_eq!(map.bounds_of(&[]), Some(Bounds { x0: 0, y0: 0, x1: 10, y1: 10 }));
    assert_eq!(map.bounds_of(&[7]), None);
    assert_eq!(map.bounds_of(&[7, 8, 9]), None);
}

#[test]
fn hues_depend_on_the_extension_only() {
    assert_eq!(file_hue("a.MP4"), file_hue("b.mp4"));
    assert!(file_hue("a.mp4").is_some());
    assert_ne!(file_hue("a.mp4"), file_hue("a.txt"));
    assert_eq!(file_hue("Makefile"), None);
    assert_eq!(file_hue(".gitignore"), None);
    assert_eq!(file_hue("trailing."), None);
    assert_eq!(file_hue("archive.tar.GZ"), file_hue("x.gz"));
    assert!(file_hue("a.mp4").unwrap() < 360);
}

#[test]
fn hue_is_fnv1a_of_the_lowercase_extension() {
    let mut hash: u32 = 0x811c_9dc5;
    for byte in b"txt" {
        hash ^= *byte as u32;
        hash = hash.wrapping_mul(0x0100_0193);
    }
    assert_eq!(file_hue("notes.TXT"), Some(hash % 360));
    assert_eq!(file_hue("Übersicht.txt"), Some(hash % 360));
}
