use raytracer::image_types::ImageIter;
use raytracer::image_types::Pixel;
use raytracer::image_types::Rect;
use raytracer::image_types::ScreenPoint;
use raytracer::raster::blank_framebuffer;
use raytracer::raster::write_tile;

#[test]
fn blank_framebuffer_is_black() {
    let data = blank_framebuffer(7, 5);
    assert_eq!(data.len(), 7 * 5 * 3);
    assert!(data.iter().all(|&b| b == 0));
}

#[test]
fn write_tile_places_pixels_at_tile_offset() {
    let (w, h) = (4u32, 3u32);
    let mut data = blank_framebuffer(w, h);
    let rect = Rect { origin: ScreenPoint { x: 1, y: 1 }, width: 2, height: 2 };
    let pixels = vec![
        Pixel { r: 10, g: 11, b: 12 },
        Pixel { r: 20, g: 21, b: 22 },
        Pixel { r: 30, g: 31, b: 32 },
        Pixel { r: 40, g: 41, b: 42 },
    ];
    write_tile(&mut data, w, h, &rect, &pixels);
    let at = |x: u32, y: u32| {
        let i = (3 * (x + y * w)) as usize;
        (data[i], data[i + 1], data[i + 2])
    };
    assert_eq!(at(1, 1), (10, 11, 12));
    assert_eq!(at(2, 1), (20, 21, 22));
    assert_eq!(at(1, 2), (30, 31, 32));
    assert_eq!(at(2, 2), (40, 41, 42));
    // Everything outside the tile is untouched.
    for y in 0..h {
        for x in 0..w {
            let inside = (1..3).contains(&x) && (1..3).contains(&y);
            if !inside {
                assert_eq!(at(x, y), (0, 0, 0), "pixel ({}, {})", x, y);
            }
        }
    }
}

#[test]
fn write_tile_does_not_disturb_earlier_tiles() {
    let (w, h) = (4u32, 2u32);
    let mut data = blank_framebuffer(w, h);
    let left = Rect { origin: ScreenPoint { x: 0, y: 0 }, width: 2, height: 2 };
    let right = Rect { origin: ScreenPoint { x: 2, y: 0 }, width: 2, height: 2 };
    let lp = vec![Pixel { r: 1, g: 1, b: 1 }; 4];
    let rp = vec![Pixel { r: 9, g: 9, b: 9 }; 4];
    write_tile(&mut data, w, h, &left, &lp);
    write_tile(&mut data, w, h, &right, &rp);
    for y in 0..h {
        for x in 0..w {
            let i = (3 * (x + y * w)) as usize;
            let expect = if x < 2 { 1 } else { 9 };
            assert_eq!(data[i], expect);
            assert_eq!(data[i + 1], expect);
            assert_eq!(data[i + 2], expect);
        }
    }
}

/// Renders a full image through the real tiling, each pixel colored from its
/// own coordinates, and checks the assembled framebuffer pixel by pixel.
#[test]
fn assembled_framebuffer_matches_pixel_coordinates() {
    let (w, h) = (300u32, 140u32);
    let mut data = blank_framebuffer(w, h);
    let mut it = ImageIter::for_image_dimensions(w, h);
    while let Some(rect) = it.next() {
        let mut pixels = Vec::new();
        let mut points = rect.iter();
        while let Some(p) = points.next() {
            pixels.push(Pixel { r: (p.x % 251) as u8, g: (p.y % 251) as u8, b: 7 });
        }
        write_tile(&mut data, w, h, &rect, &pixels);
    }
    for y in 0..h {
        for x in 0..w {
            let i = (3 * (x + y * w)) as usize;
            assert_eq!(data[i], (x % 251) as u8);
            assert_eq!(data[i + 1], (y % 251) as u8);
            assert_eq!(data[i + 2], 7);
        }
    }
}
