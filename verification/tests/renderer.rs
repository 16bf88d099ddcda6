use pathtracer::renderer::{ImageChunk, Renderer, CHUNK_SIZE};

#[test]
fn new_chunk_is_filled() {
    let c = ImageChunk::new(3, 5, 2, 2, 255);
    assert_eq!(c.x, 3);
    assert_eq!(c.y, 5);
    assert_eq!(c.width, 2);
    assert_eq!(c.height, 2);
    assert_eq!(c.data.len(), 12);
    assert!(c.data.iter().all(|b| *b == 255));
}

#[test]
fn set_then_get_pixel() {
    let mut c = ImageChunk::new(0, 0, 3, 2, 0);
    c.set_pixel(2, 1, (10, 20, 30));
    assert_eq!(c.get_pixel(2, 1), (10, 20, 30));
    // every other pixel keeps the fill value
    for px in 0..3u32 {
        for py in 0..2u32 {
            if (px, py) != (2, 1) {
                assert_eq!(c.get_pixel(px, py), (0, 0, 0));
            }
        }
    }
    // row-major interleaved layout: pixel (2, 1) starts at (2 + 1 * 3) * 3
    assert_eq!(c.data[15], 10);
    assert_eq!(c.data[16], 20);
    assert_eq!(c.data[17], 30);
}

#[test]
fn plan_chunks_clips_the_last_row_and_column() {
    let coords = Renderer::plan_chunks(70, 50);
    assert_eq!(coords.len(), 6);
    for &(x, y, w, h) in coords.iter() {
        assert_eq!(x % CHUNK_SIZE, 0);
        assert_eq!(y % CHUNK_SIZE, 0);
        assert!(w >= 1 && w <= CHUNK_SIZE);
        assert!(h >= 1 && h <= CHUNK_SIZE);
        assert!(x + w <= 70);
        assert!(y + h <= 50);
        assert_eq!(w, if x == 64 { 6 } else { 32 });
        assert_eq!(h, if y == 32 { 18 } else { 32 });
    }
}

#[test]
fn plan_chunks_covers_every_pixel_exactly_once() {
    let (width, height) = (70u32, 50u32);
    let coords = Renderer::plan_chunks(width, height);
    let mut hits = vec![0u32; (width * height) as usize];
    for &(x, y, w, h) in coords.iter() {
        for px in x..x + w {
            for py in y..y + h {
                hits[(px + py * width) as usize] += 1;
            }
        }
    }
    assert!(hits.iter().all(|n| *n == 1));
}

#[test]
fn plan_chunks_exact_grid() {
    let coords = Renderer::plan_chunks(64, 32);
    assert_eq!(coords, vec![(0, 0, 32, 32), (32, 0, 32, 32)]);
}

#[test]
fn plan_chunks_empty_image() {
    assert!(Renderer::plan_chunks(0, 100).is_empty());
    assert!(Renderer::plan_chunks(100, 0).is_empty());
}

#[test]
fn sub_image_flips_rows() {
    let mut global = ImageChunk::new(0, 0, 4, 4, 255);
    let mut chunk = ImageChunk::new(1, 1, 2, 2, 0);
    chunk.set_pixel(0, 0, (1, 1, 1));
    chunk.set_pixel(1, 0, (2, 2, 2));
    chunk.set_pixel(0, 1, (3, 3, 3));
    chunk.set_pixel(1, 1, (4, 4, 4));
    Renderer::sub_image(&mut global, &chunk);
    // tile row j lands on global row height - (chunk.y + j) - 1
    assert_eq!(global.get_pixel(1, 2), (1, 1, 1));
    assert_eq!(global.get_pixel(2, 2), (2, 2, 2));
    assert_eq!(global.get_pixel(1, 1), (3, 3, 3));
    assert_eq!(global.get_pixel(2, 1), (4, 4, 4));
    // everything outside the target rectangle keeps its value
    for px in 0..4u32 {
        for py in 0..4u32 {
            let written = (1..3).contains(&px) && (1..3).contains(&py);
            if !written {
                assert_eq!(global.get_pixel(px, py), (255, 255, 255));
            }
        }
    }
}

#[test]
fn composite_places_disjoint_chunks() {
    let mut left = ImageChunk::new(0, 0, 1, 2, 0);
    left.set_pixel(0, 0, (10, 0, 0));
    left.set_pixel(0, 1, (20, 0, 0));
    let mut right = ImageChunk::new(1, 0, 1, 1, 0);
    right.set_pixel(0, 0, (30, 0, 0));
    let chunks = vec![left, right];
    let image = Renderer::composite(2, 2, &chunks);
    assert_eq!(image.width, 2);
    assert_eq!(image.height, 2);
    // left column: rows flipped
    assert_eq!(image.get_pixel(0, 1), (10, 0, 0));
    assert_eq!(image.get_pixel(0, 0), (20, 0, 0));
    // right chunk covers only source row 0, which lands on the bottom row
    assert_eq!(image.get_pixel(1, 1), (30, 0, 0));
    // the unclaimed pixel keeps the fill value
    assert_eq!(image.get_pixel(1, 0), (255, 255, 255));
}

#[test]
fn plan_then_composite_rebuilds_the_image() {
    let (width, height) = (48u32, 40u32);
    let coords = Renderer::plan_chunks(width, height);
    let chunks: Vec<ImageChunk> = coords
        .iter()
        .enumerate()
        .map(|(n, &(x, y, w, h))| ImageChunk::new(x, y, w, h, n as u8 + 1))
        .collect();
    let image = Renderer::composite(width, height, &chunks);
    // every pixel carries the fill of the one tile that claims it: no pixel
    // is left at the background value
    for px in 0..width {
        for py in 0..height {
            let source_row = height - 1 - py;
            let owner = coords
                .iter()
                .position(|&(x, y, w, h)| {
                    x <= px && px < x + w && y <= source_row && source_row < y + h
                })
                .expect("tiles cover the image");
            let fill = owner as u8 + 1;
            assert_eq!(image.get_pixel(px, py), (fill, fill, fill));
        }
    }
}
