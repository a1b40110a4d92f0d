use image_collage::collage::{create_collage, crop_offsets, load_and_process_image, Image, LoadError};
use image_collage::utils::is_image_file;

fn png_bytes(w: u32, h: u32, rgb: [u8; 3]) -> Vec<u8> {
    let img = image::RgbImage::from_pixel(w, h, image::Rgb(rgb));
    let mut buf: Vec<u8> = Vec::new();
    image::DynamicImage::ImageRgb8(img)
        .write_to(&mut std::io::Cursor::new(&mut buf), image::ImageFormat::Png)
        .unwrap();
    buf
}

fn solid(size: u32, rgb: [u8; 3]) -> Image {
    let mut pixels = Vec::new();
    for _ in 0..(size * size) {
        pixels.push(rgb[0]);
        pixels.push(rgb[1]);
        pixels.push(rgb[2]);
    }
    Image { width: size, height: size, pixels }
}

fn px(img: &Image, x: u32, y: u32) -> [u8; 3] {
    let i = (3 * (y * img.width + x)) as usize;
    [img.pixels[i], img.pixels[i + 1], img.pixels[i + 2]]
}

#[test]
fn normalize_nonsquare_is_exactly_target_size() {
    let bytes = png_bytes(200, 100, [10, 20, 30]);
    let img = load_and_process_image(&bytes, 64).unwrap();
    assert_eq!(img.width, 64);
    assert_eq!(img.height, 64);
    assert_eq!(img.pixels.len(), 3 * 64 * 64);
}

#[test]
fn crop_offsets_split_margin_evenly() {
    for &(w, h) in &[(5u32, 3u32), (10, 7), (7, 10), (3, 3), (1, 2), (200, 100)] {
        let m = w.min(h);
        let (ox, oy) = crop_offsets(w, h);
        assert!(2 * ox + m == w || 2 * ox + m == w - 1);
        assert!(2 * oy + m == h || 2 * oy + m == h - 1);
    }
    assert_eq!(crop_offsets(200, 100), (50, 0));
    assert_eq!(crop_offsets(100, 201), (0, 50));
}

#[test]
fn square_source_is_not_cropped() {
    assert_eq!(crop_offsets(7, 7), (0, 0));
    assert_eq!(crop_offsets(400, 400), (0, 0));
    let bytes = png_bytes(80, 80, [1, 2, 3]);
    let img = load_and_process_image(&bytes, 100).unwrap();
    assert_eq!(img.width, 100);
    assert_eq!(img.height, 100);
}

#[test]
fn undecodable_bytes_are_rejected() {
    let garbage = vec![1u8, 2, 3, 4, 5];
    match load_and_process_image(&garbage, 100) {
        Err(LoadError::Undecodable) => {}
        _ => panic!("expected LoadError::Undecodable"),
    }
    let empty: Vec<u8> = Vec::new();
    assert!(matches!(load_and_process_image(&empty, 10), Err(LoadError::Undecodable)));
}

#[test]
fn collage_dimensions_are_twice_size_plus_border() {
    let imgs = vec![
        solid(4, [255, 0, 0]),
        solid(4, [0, 255, 0]),
        solid(4, [0, 0, 255]),
        solid(4, [255, 255, 0]),
    ];
    let canvas = create_collage(&imgs, 4, 2);
    assert_eq!(canvas.width, 10);
    assert_eq!(canvas.height, 10);
    assert_eq!(canvas.pixels.len(), 300);
}

#[test]
fn collage_top_right_quadrant_comes_from_second_image() {
    let imgs = vec![
        solid(3, [1, 1, 1]),
        solid(3, [2, 2, 2]),
        solid(3, [3, 3, 3]),
        solid(3, [4, 4, 4]),
    ];
    let canvas = create_collage(&imgs, 3, 1);
    assert_eq!(canvas.width, 7);
    for dx in 0..3 {
        for dy in 0..3 {
            assert_eq!(px(&canvas, 3 + 1 + dx, dy), [2, 2, 2]);
        }
    }
}

#[test]
fn collage_border_region_is_background_white() {
    let imgs = vec![
        solid(3, [1, 1, 1]),
        solid(3, [2, 2, 2]),
        solid(3, [3, 3, 3]),
        solid(3, [4, 4, 4]),
    ];
    let canvas = create_collage(&imgs, 3, 2);
    assert_eq!(canvas.width, 8);
    for x in 3..5 {
        for y in 0..8 {
            assert_eq!(px(&canvas, x, y), [255, 255, 255]);
            assert_eq!(px(&canvas, y, x), [255, 255, 255]);
        }
    }
}

#[test]
fn collage_with_fewer_images_leaves_background() {
    let imgs = vec![solid(2, [9, 9, 9])];
    let canvas = create_collage(&imgs, 2, 1);
    assert_eq!(canvas.width, 5);
    assert_eq!(px(&canvas, 0, 0), [9, 9, 9]);
    assert_eq!(px(&canvas, 3, 0), [255, 255, 255]);
    assert_eq!(px(&canvas, 0, 3), [255, 255, 255]);
    assert_eq!(px(&canvas, 3, 3), [255, 255, 255]);
}

#[test]
fn end_to_end_four_solid_colors() {
    let red = png_bytes(100, 100, [255, 0, 0]);
    let green = png_bytes(100, 100, [0, 255, 0]);
    let blue = png_bytes(100, 100, [0, 0, 255]);
    let yellow = png_bytes(100, 100, [255, 255, 0]);
    let imgs = vec![
        load_and_process_image(&red, 100).unwrap(),
        load_and_process_image(&green, 100).unwrap(),
        load_and_process_image(&blue, 100).unwrap(),
        load_and_process_image(&yellow, 100).unwrap(),
    ];
    let canvas = create_collage(&imgs, 100, 10);
    assert_eq!(canvas.width, 210);
    assert_eq!(canvas.height, 210);
    for x in 0..100 {
        for y in 0..100 {
            assert_eq!(px(&canvas, x, y), [255, 0, 0]);
            assert_eq!(px(&canvas, 110 + x, y), [0, 255, 0]);
            assert_eq!(px(&canvas, x, 110 + y), [0, 0, 255]);
            assert_eq!(px(&canvas, 110 + x, 110 + y), [255, 255, 0]);
        }
    }
    for b in 100..110 {
        for t in 0..210 {
            assert_eq!(px(&canvas, b, t), [255, 255, 255]);
            assert_eq!(px(&canvas, t, b), [255, 255, 255]);
        }
    }
}

#[test]
fn image_file_extensions_match_case_insensitively() {
    assert!(is_image_file(&b"/a/b/photo.jpg".to_vec()));
    assert!(is_image_file(&b"photo.JPG".to_vec()));
    assert!(is_image_file(&b"photo.JpEg".to_vec()));
    assert!(is_image_file(&b"x.png".to_vec()));
    assert!(is_image_file(&b"x.gif".to_vec()));
    assert!(is_image_file(&b"x.bmp".to_vec()));
    assert!(is_image_file(&b"x.webp".to_vec()));
    assert!(is_image_file(&b"x.tiff".to_vec()));
    assert!(is_image_file(&b"x.tif".to_vec()));
}

#[test]
fn non_image_paths_are_rejected() {
    assert!(!is_image_file(&b"A.txt".to_vec()));
    assert!(!is_image_file(&b"noext".to_vec()));
    assert!(!is_image_file(&b".hidden".to_vec()));
    assert!(!is_image_file(&b"archive.tar.gz".to_vec()));
    assert!(!is_image_file(&b"dot.".to_vec()));
    assert!(!is_image_file(&b"/dir.jpg/file".to_vec()));
    assert!(!is_image_file(&b"".to_vec()));
}
