use lyrics::ebook::cover::{
    collage, cover_canvas, cover_jpeg, dim, fill_cell, fit_within, grid_for, pick_evenly, scale,
    thumbnail, Raster, COVER_HEIGHT, COVER_WIDTH,
};

fn blank(width: u32, height: u32) -> Raster {
    Raster::filled(width, height, (0, 0, 0))
}

#[test]
fn fit_within_leaves_small_images_alone() {
    assert_eq!(fit_within(300, 200, 600), (300, 200));
    assert_eq!(fit_within(600, 600, 600), (600, 600));
}

#[test]
fn fit_within_preserves_aspect_ratio() {
    assert_eq!(fit_within(1500, 1500, 600), (600, 600));
    assert_eq!(fit_within(1200, 600, 600), (600, 300));
    assert_eq!(fit_within(600, 1200, 600), (300, 600));
}

#[test]
fn fit_within_never_returns_a_zero_edge() {
    let (_, height) = fit_within(10_000, 1, 600);
    assert!(height >= 1);
}

#[test]
fn scale_does_not_overflow_on_large_dimensions() {
    assert_eq!(scale(100_000, 100_000, 100_000), 100_000);
    assert_eq!(scale(10, 0, 5), 0);
    assert_eq!(scale(10, 5, 0), 0);
}

#[test]
fn scale_clamps_into_u32() {
    assert_eq!(scale(u32::MAX, u32::MAX, 1), u32::MAX);
    assert_eq!(scale(7, 3, 2), 10);
}

#[test]
fn pick_evenly_returns_everything_when_it_fits() {
    assert_eq!(pick_evenly(&[1, 2, 3], 5), vec![1, 2, 3]);
    assert_eq!(pick_evenly(&[1, 2, 3], 3), vec![1, 2, 3]);
}

#[test]
fn pick_evenly_spreads_across_the_whole_list() {
    let items: Vec<u32> = (0..100).collect();
    let picked = pick_evenly(&items, 4);
    assert_eq!(picked.len(), 4);
    assert_eq!(picked, vec![12, 37, 62, 87]);
}

#[test]
fn pick_evenly_handles_empty_input() {
    assert!(pick_evenly::<u32>(&[], 4).is_empty());
    assert!(pick_evenly(&[1, 2, 3], 0).is_empty());
}

#[test]
fn pick_evenly_never_repeats_an_item() {
    let items: Vec<u32> = (0..97).collect();
    let picked = pick_evenly(&items, 10);
    assert_eq!(picked.len(), 10);
    for pair in picked.windows(2) {
        assert!(pair[0] < pair[1], "{picked:?}");
    }
}

#[test]
fn the_grid_never_asks_for_more_images_than_it_has() {
    for count in 1..=200_usize {
        let (columns, rows) = grid_for(count);
        let cells = usize::try_from(columns.saturating_mul(rows)).unwrap_or(0);
        assert!(cells <= count, "grid for {count} images wants {cells} cells");
        assert!(columns >= 1 && rows >= 1, "empty grid for {count}");
    }
}

#[test]
fn the_grid_grows_with_the_library() {
    assert_eq!(grid_for(8), (2, 4));
    assert_eq!(grid_for(24), (4, 6));
    assert_eq!(grid_for(1_000), (8, 12));
}

#[test]
fn a_single_album_still_yields_a_grid() {
    assert_eq!(grid_for(1), (1, 1));
    assert_eq!(grid_for(0), (0, 0));
}

#[test]
fn fill_cell_produces_exactly_the_requested_size() {
    let wide = blank(400, 100);
    let filled = fill_cell(&wide, 200, 200);
    assert_eq!((filled.width, filled.height), (200, 200));
    assert_eq!(filled.pixels.len(), 200 * 200 * 3);

    let tall = blank(100, 400);
    let filled = fill_cell(&tall, 200, 200);
    assert_eq!((filled.width, filled.height), (200, 200));
}

#[test]
fn collage_of_nothing_is_none() {
    assert!(collage(&Vec::new()).is_none());
}

#[test]
fn a_collage_covers_the_whole_canvas() {
    let art = vec![Raster::filled(300, 300, (200, 100, 50)), blank(50, 80)];
    let canvas = collage(&art).expect("two images make a collage");
    assert_eq!((canvas.width, canvas.height), (COVER_WIDTH, COVER_HEIGHT));
    assert_eq!(
        canvas.pixels.len(),
        (COVER_WIDTH as usize) * (COVER_HEIGHT as usize) * 3
    );
}

#[test]
fn a_cover_is_produced_even_with_no_album_art() {
    let canvas = cover_canvas(&Vec::new());
    assert_eq!((canvas.width, canvas.height), (COVER_WIDTH, COVER_HEIGHT));
    assert_eq!(&canvas.pixels[..3], &[20, 20, 26]);
    assert!(cover_jpeg(&canvas).is_some());
}

#[test]
fn dimming_darkens_every_channel_by_the_cover_ratio() {
    let mut image = Raster::filled(2, 1, (255, 0, 100));
    dim(&mut image);
    assert_eq!(image.pixels, vec![150, 0, 58, 150, 0, 58]);
}

#[test]
fn a_thumbnail_is_a_jpeg() {
    let art = Raster::filled(1200, 600, (10, 20, 30));
    let bytes = thumbnail(art, 600).expect("encodes");
    assert_eq!(&bytes[..2], &[0xFF, 0xD8]);
}

fn png_bytes(width: u32, height: u32, rgb: [u8; 3]) -> Vec<u8> {
    let image = image::RgbImage::from_pixel(width, height, image::Rgb(rgb));
    let mut bytes = Vec::new();
    image
        .write_to(&mut std::io::Cursor::new(&mut bytes), image::ImageFormat::Png)
        .unwrap();
    bytes
}

#[test]
fn art_files_that_decode_are_kept_in_order_and_the_rest_skipped() {
    let files = vec![
        png_bytes(4, 2, [255, 0, 0]),
        b"not an image".to_vec(),
        png_bytes(3, 3, [0, 0, 255]),
    ];
    let decoded = lyrics::ebook::cover::decode_all(&files);
    assert_eq!(decoded.len(), 2);
    assert_eq!((decoded[0].width, decoded[0].height), (4, 2));
    assert_eq!(&decoded[0].pixels[..3], &[255, 0, 0]);
    assert_eq!((decoded[1].width, decoded[1].height), (3, 3));
    assert_eq!(decoded[1].pixels.len(), 27);
}

#[test]
fn an_art_thumbnail_is_a_jpeg_and_garbage_gives_none() {
    let jpeg = lyrics::ebook::cover::art_thumbnail(&png_bytes(1200, 600, [10, 200, 30]), 600).unwrap();
    assert_eq!(&jpeg[..2], &[0xff, 0xd8]);
    let decoded = image::load_from_memory(&jpeg).unwrap();
    assert_eq!((decoded.width(), decoded.height()), (600, 300));
    assert!(lyrics::ebook::cover::art_thumbnail(b"junk", 600).is_none());
}

#[test]
fn the_cover_base_is_a_collage_when_there_is_art() {
    let decoded = lyrics::ebook::cover::decode_all(&vec![png_bytes(10, 10, [200, 200, 200])]);
    let base = lyrics::ebook::cover::cover_base(&decoded);
    assert_eq!((base.width, base.height), (1600, 2400));
    // The art is dimmed: 200 * 150 / 255 is 117.
    assert!(base.pixels[..3].iter().all(|c| (116..=118).contains(c)), "{:?}", &base.pixels[..3]);
    let plain = lyrics::ebook::cover::cover_base(&Vec::new());
    assert_eq!(&plain.pixels[..3], &[20, 20, 26]);
}

#[test]
fn pick_evenly_takes_all_when_they_fit_and_bucket_midpoints_otherwise() {
    assert_eq!(pick_evenly(&[1, 2, 3], 5), vec![1, 2, 3]);
    let items: Vec<u32> = (0..10).collect();
    assert_eq!(pick_evenly(&items, 3), vec![1, 5, 8]);
    assert!(pick_evenly(&items, 0).is_empty());
}
