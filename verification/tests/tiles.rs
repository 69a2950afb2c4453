use raytracer::image_types::ImageIter;
use raytracer::image_types::Rect;
use raytracer::image_types::ScreenPoint;

fn collect_tiles(w: u32, h: u32) -> Vec<Rect> {
    let mut it = ImageIter::for_image_dimensions(w, h);
    let mut tiles = Vec::new();
    while let Some(rect) = it.next() {
        tiles.push(rect);
    }
    tiles
}

#[test]
fn tiling_exact_multiple() {
    // 256 = 2 * 128 on both axes: the degenerate boundary tiles are skipped.
    let tiles = collect_tiles(256, 256);
    assert_eq!(tiles.len(), 4);
    for t in &tiles {
        assert_eq!(t.width, 128);
        assert_eq!(t.height, 128);
    }
    assert_eq!((tiles[0].origin.x, tiles[0].origin.y), (0, 0));
    assert_eq!((tiles[1].origin.x, tiles[1].origin.y), (128, 0));
    assert_eq!((tiles[2].origin.x, tiles[2].origin.y), (0, 128));
    assert_eq!((tiles[3].origin.x, tiles[3].origin.y), (128, 128));
}

#[test]
fn tiling_with_remainder() {
    // 300 = 2 * 128 + 44 and 200 = 1 * 128 + 72: boundary tiles use the
    // remainder dimensions.
    let tiles = collect_tiles(300, 200);
    assert_eq!(tiles.len(), 6);
    assert_eq!(tiles[0].width, 128);
    assert_eq!(tiles[2].width, 44);
    assert_eq!(tiles[2].origin.x, 256);
    assert_eq!(tiles[3].height, 72);
    assert_eq!(tiles[3].origin.y, 128);
    assert_eq!(tiles[5].width, 44);
    assert_eq!(tiles[5].height, 72);
}

#[test]
fn tiling_small_image() {
    let tiles = collect_tiles(50, 40);
    assert_eq!(tiles.len(), 1);
    assert_eq!(tiles[0].width, 50);
    assert_eq!(tiles[0].height, 40);
}

#[test]
fn tiling_empty_image() {
    assert_eq!(collect_tiles(0, 100).len(), 0);
    assert_eq!(collect_tiles(100, 0).len(), 0);
    assert_eq!(ImageIter::for_image_dimensions(0, 100).number_of_tiles(), 0);
}

#[test]
fn tiling_exhausted_iterator_stays_exhausted() {
    let mut it = ImageIter::for_image_dimensions(100, 100);
    assert!(it.next().is_some());
    assert!(it.next().is_none());
    assert!(it.next().is_none());
}

#[test]
fn number_of_tiles_matches_enumeration() {
    for &(w, h) in &[
        (256u32, 256u32),
        (300, 200),
        (640, 480),
        (128, 128),
        (129, 128),
        (1, 1),
        (127, 385),
    ] {
        let n = ImageIter::for_image_dimensions(w, h).number_of_tiles();
        assert_eq!(n as usize, collect_tiles(w, h).len(), "dimensions {}x{}", w, h);
    }
    assert_eq!(ImageIter::for_image_dimensions(640, 480).number_of_tiles(), 20);
}

#[test]
fn tiling_covers_every_pixel_exactly_once() {
    let (w, h) = (300u32, 200u32);
    let mut covered = vec![0u32; (w * h) as usize];
    let mut it = ImageIter::for_image_dimensions(w, h);
    while let Some(rect) = it.next() {
        let mut points = rect.iter();
        while let Some(p) = points.next() {
            assert!(p.x < w && p.y < h);
            covered[(p.x + p.y * w) as usize] += 1;
        }
    }
    assert!(covered.iter().all(|&c| c == 1));
}

#[test]
fn rect_iter_row_major_order() {
    let rect = Rect { origin: ScreenPoint { x: 2, y: 3 }, width: 3, height: 2 };
    let mut it = rect.iter();
    let mut points = Vec::new();
    while let Some(p) = it.next() {
        points.push((p.x, p.y));
    }
    assert_eq!(points, vec![(2, 3), (3, 3), (4, 3), (2, 4), (3, 4), (4, 4)]);
    assert!(it.next().is_none());
}

#[test]
fn rect_iter_zero_height() {
    let rect = Rect { origin: ScreenPoint { x: 0, y: 0 }, width: 5, height: 0 };
    assert!(rect.iter().next().is_none());
}

#[test]
fn screen_point_add_is_componentwise() {
    let a = ScreenPoint { x: 3, y: 11 };
    let b = ScreenPoint { x: 40, y: 2 };
    let c = a.add(&b);
    assert_eq!(c.x, 43);
    assert_eq!(c.y, 13);
}
