use braque::scramble::{block_moves, supports_image, Regions};
use braque::{scramble, unscramble, BlockSize, Mode, Rect};
use image::{DynamicImage, GenericImageView, Rgb, RgbImage};

#[test]
fn block_size() {
    assert_eq!(BlockSize::try_from(50).map(|b| b.get()), Ok(50));
    assert!(BlockSize::try_from(0).is_err());
    assert_eq!(u32::from(BlockSize::try_from(7).unwrap()), 7);
    let b: Result<BlockSize, _> = 9u32.try_into();
    assert_eq!(b.map(u32::from), Ok(9));
    let z: Result<BlockSize, &str> = 0u32.try_into();
    assert!(z.is_err());
}

#[test]
fn float_images_unsupported() {
    assert!(supports_image(&test_image(4, 4)));
    let f = DynamicImage::ImageRgb32F(image::Rgb32FImage::new(4, 4));
    assert!(!supports_image(&f));
    let g = DynamicImage::ImageRgba16(image::ImageBuffer::new(4, 4));
    assert!(supports_image(&g));
}

fn size(v: u32) -> BlockSize {
    BlockSize::try_from(v).unwrap()
}

// Image resolution is a multiple of the block size.
#[test]
fn image_match_block() {
    let regions = Regions::new(800, 600, size(10));

    assert_eq!(regions.main.expect("main region").blocks.len(), 80 * 60);
    assert!(regions.right.is_none());
    assert!(regions.bottom.is_none());
}

// Image width isn't a multiple of the block size.
#[test]
fn image_width_mismatch() {
    let regions = Regions::new(800, 600, size(30));

    assert_eq!(regions.main.expect("main region").blocks.len(), 26 * 20);
    assert_eq!(regions.right.expect("right region").blocks.len(), 20);
    assert!(regions.bottom.is_none());
}

// Image height isn't a multiple of the block size.
#[test]
fn image_height_mismatch() {
    let regions = Regions::new(800, 600, size(80));

    assert_eq!(regions.main.expect("main region").blocks.len(), 10 * 7);
    assert!(regions.right.is_none());
    assert_eq!(regions.bottom.expect("bottom region").blocks.len(), 10);
}

// Image resolution isn't a multiple of the block size.
#[test]
fn image_mismatch_block() {
    let regions = Regions::new(800, 600, size(70));

    assert_eq!(regions.main.expect("main region").blocks.len(), 11 * 8);
    assert_eq!(regions.right.expect("right region").blocks.len(), 8);
    assert_eq!(regions.bottom.expect("bottom region").blocks.len(), 11);
}

// Image width smaller than block size.
#[test]
fn image_width_too_small() {
    let regions = Regions::new(80, 600, size(100));

    assert!(regions.main.is_none());
    assert_eq!(regions.right.expect("right region").blocks.len(), 6);
    assert!(regions.bottom.is_none());
}

// Image height smaller than block size.
#[test]
fn image_height_too_small() {
    let regions = Regions::new(800, 60, size(100));

    assert!(regions.main.is_none());
    assert!(regions.right.is_none());
    assert_eq!(regions.bottom.expect("bottom region").blocks.len(), 8);
}

// Image smaller than block size.
#[test]
fn image_too_small() {
    let regions = Regions::new(80, 60, size(100));

    assert!(regions.main.is_none());
    assert!(regions.right.is_none());
    assert!(regions.bottom.is_none());
}

#[test]
fn region_shapes_and_columns() {
    let regions = Regions::new(25, 23, size(10));
    let main = regions.main.expect("main region");
    let right = regions.right.expect("right region");
    let bottom = regions.bottom.expect("bottom region");
    assert_eq!(main.nb_cols, 2);
    assert_eq!(right.nb_cols, 1);
    assert_eq!(bottom.nb_cols, 2);
    assert_eq!(main.blocks[3], Rect { x: 10, y: 10, width: 10, height: 10 });
    assert_eq!(right.blocks[1], Rect { x: 20, y: 10, width: 5, height: 10 });
    assert_eq!(bottom.blocks[1], Rect { x: 10, y: 20, width: 10, height: 3 });
}

#[test]
fn moves_cover_every_block_once() {
    let moves = block_moves(95, 47, size(10), b"seed", Mode::Scramble);
    // 9 x 4 main blocks, 4 right, 9 bottom; the corner stays.
    assert_eq!(moves.len(), 36 + 4 + 9);
    let mut sources: Vec<Rect> = moves.iter().map(|m| m.0).collect();
    let mut dests: Vec<Rect> = moves.iter().map(|m| m.1).collect();
    let key = |r: &Rect| (r.y, r.x);
    sources.sort_by_key(key);
    dests.sort_by_key(key);
    assert_eq!(sources, dests);
    for (src, dst) in &moves {
        assert_eq!((src.width, src.height), (dst.width, dst.height));
    }
}

#[test]
fn moves_invert() {
    let fwd = block_moves(64, 48, size(8), b"k", Mode::Scramble);
    let back = block_moves(64, 48, size(8), b"k", Mode::Unscramble);
    assert_eq!(fwd.len(), back.len());
    // Destination d gets source s when scrambling; unscrambling must send s back to d.
    for (src, dst) in &fwd {
        assert!(back.iter().any(|(s2, d2)| s2 == dst && d2 == src));
    }
}

fn test_image(w: u32, h: u32) -> DynamicImage {
    let img = RgbImage::from_fn(w, h, |x, y| Rgb([(x % 251) as u8, (y % 241) as u8, ((x * 7 + y * 13) % 256) as u8]));
    DynamicImage::ImageRgb8(img)
}

#[test]
fn image_roundtrip() {
    let img = test_image(103, 77);
    let bs = size(10);
    let scrambled = scramble(&img, bs, b"Braque");
    assert_eq!(scrambled.dimensions(), img.dimensions());
    assert_ne!(scrambled.as_bytes(), img.as_bytes());
    let restored = unscramble(&scrambled, bs, b"Braque");
    assert_eq!(restored.as_bytes(), img.as_bytes());
}

#[test]
fn image_corner_unmoved() {
    let img = test_image(25, 25);
    let scrambled = scramble(&img, size(10), b"c");
    for y in 20..25 {
        for x in 20..25 {
            assert_eq!(scrambled.get_pixel(x, y), img.get_pixel(x, y));
        }
    }
}

#[test]
fn moves_follow_index_shuffle() {
    // A 40 x 10 canvas with blocks of 10: one row of four square blocks.
    let seed = b"row";
    let blocks: Vec<Rect> = (0..4).map(|k| Rect { x: k * 10, y: 0, width: 10, height: 10 }).collect();
    let ids: Vec<usize> = (0..4).collect();
    let fwd = block_moves(40, 10, size(10), seed, Mode::Scramble);
    let back = block_moves(40, 10, size(10), seed, Mode::Unscramble);
    let shuffled = braque::shuffle::shuffle(&ids, seed);
    let unshuffled = braque::shuffle::unshuffle(&ids, seed);
    for i in 0..4 {
        assert_eq!(fwd[i], (blocks[shuffled[i]], blocks[i]));
        assert_eq!(back[i], (blocks[unshuffled[i]], blocks[i]));
    }
}

#[test]
fn image_roundtrip_opaque_rgba() {
    let img = DynamicImage::ImageRgba8(image::RgbaImage::from_fn(57, 41, |x, y| {
        image::Rgba([(x * 3 % 256) as u8, (y * 5 % 256) as u8, ((x + y) % 256) as u8, 255])
    }));
    let bs = size(8);
    let scrambled = scramble(&img, bs, b"opaque");
    assert_ne!(scrambled.as_bytes(), img.as_bytes());
    let restored = unscramble(&scrambled, bs, b"opaque");
    assert_eq!(restored.as_bytes(), img.as_bytes());
}
