use oneocr::bitmap::{validate_buffer, validate_dimensions, OcrImage};
use oneocr::error::OcrError;

// -- Dimension validation -------------------------------------------------

#[test]
fn dimensions_valid_minimum() {
    assert!(validate_dimensions(50, 50).is_ok());
}

#[test]
fn dimensions_valid_maximum() {
    assert!(validate_dimensions(10_000, 10_000).is_ok());
}

#[test]
fn dimensions_too_small_width() {
    assert!(validate_dimensions(49, 50).is_err());
}

#[test]
fn dimensions_too_small_height() {
    assert!(validate_dimensions(50, 49).is_err());
}

#[test]
fn dimensions_too_large() {
    assert!(validate_dimensions(10_001, 100).is_err());
    assert!(validate_dimensions(100, 10_001).is_err());
}

// -- Buffer validation ----------------------------------------------------

#[test]
fn buffer_valid_size() {
    let data = vec![0u8; 50 * 50 * 4];
    assert!(validate_buffer(50, 50, &data).is_ok());
}

#[test]
fn buffer_too_small() {
    let data = vec![0u8; 100];
    let err = validate_buffer(50, 50, &data).unwrap_err();
    match err {
        OcrError::BufferSize { expected, actual } => {
            assert_eq!(expected, 50 * 50 * 4);
            assert_eq!(actual, 100);
        }
        _ => panic!("expected BufferSize error"),
    }
}

#[test]
fn buffer_too_large() {
    let data = vec![0u8; 50 * 50 * 4 + 1];
    assert!(validate_buffer(50, 50, &data).is_err());
}

// -- OcrImage constructors ------------------------------------------------

#[test]
fn from_bgra_valid() {
    let data = vec![0u8; 50 * 50 * 4];
    let img = OcrImage::from_bgra(50, 50, data).unwrap();
    assert_eq!(img.width(), 50);
    assert_eq!(img.height(), 50);
}

#[test]
fn from_bgra_rejects_bad_buffer() {
    let data = vec![0u8; 100];
    assert!(OcrImage::from_bgra(50, 50, data).is_err());
}

#[test]
fn from_bgra_rejects_bad_dimensions() {
    let data = vec![0u8; 10 * 10 * 4];
    assert!(OcrImage::from_bgra(10, 10, data).is_err());
}

#[test]
fn from_rgba_swaps_channels() {
    // Single pixel: R=0xFF G=0x00 B=0xAA A=0xBB
    let mut data = vec![0u8; 50 * 50 * 4];
    data[0] = 0xFF; // R
    data[1] = 0x00; // G
    data[2] = 0xAA; // B
    data[3] = 0xBB; // A
    let img = OcrImage::from_rgba(50, 50, data).unwrap();
    // After swap: B=0xFF G=0x00 R=0xAA A=0xBB
    assert_eq!(img.bgra_data()[0], 0xAA); // B (was R position, now has B value)
    assert_eq!(img.bgra_data()[1], 0x00); // G unchanged
    assert_eq!(img.bgra_data()[2], 0xFF); // R (was B position, now has R value)
    assert_eq!(img.bgra_data()[3], 0xBB); // A unchanged
}

#[test]
fn from_rgba_rejects_bad_buffer() {
    let data = vec![0u8; 100];
    assert!(OcrImage::from_rgba(50, 50, data).is_err());
}

#[test]
fn from_bytes_invalid_data() {
    assert!(OcrImage::from_bytes(&[0, 1, 2, 3]).is_err());
}

// -- Further cases --------------------------------------------------------

#[test]
fn dimension_error_is_reported_before_buffer_error() {
    let data = vec![0u8; 7];
    assert!(matches!(OcrImage::from_rgba(10, 10, data), Err(OcrError::ImageDimensions)));
}

#[test]
fn from_bgra_keeps_bytes() {
    let data: Vec<u8> = (0..50 * 50 * 4).map(|i| (i % 251) as u8).collect();
    let img = OcrImage::from_bgra(50, 50, data.clone()).unwrap();
    assert_eq!(img.bgra_data(), &data[..]);
}

#[test]
fn from_rgba_swaps_every_pixel() {
    let data: Vec<u8> = (0..50 * 60 * 4).map(|i| (i % 253) as u8).collect();
    let img = OcrImage::from_rgba(50, 60, data.clone()).unwrap();
    let out = img.bgra_data();
    for p in 0..50 * 60 {
        assert_eq!(out[4 * p], data[4 * p + 2]);
        assert_eq!(out[4 * p + 1], data[4 * p + 1]);
        assert_eq!(out[4 * p + 2], data[4 * p]);
        assert_eq!(out[4 * p + 3], data[4 * p + 3]);
    }
}

#[test]
fn from_rgba_twice_restores_channels() {
    let data: Vec<u8> = (0..50 * 50 * 4).map(|i| (i % 241) as u8).collect();
    let once = OcrImage::from_rgba(50, 50, data.clone()).unwrap();
    let twice = OcrImage::from_rgba(50, 50, once.bgra_data().to_vec()).unwrap();
    assert_eq!(twice.bgra_data(), &data[..]);
}

#[test]
fn from_bytes_decodes_png() {
    // Encode a 50x50 RGBA image and decode it back.
    let mut pixels = vec![0u8; 50 * 50 * 4];
    pixels[0] = 10;
    pixels[1] = 20;
    pixels[2] = 30;
    pixels[3] = 255;
    let buf = image::RgbaImage::from_raw(50, 50, pixels).unwrap();
    let mut png = Vec::new();
    buf.write_to(&mut std::io::Cursor::new(&mut png), image::ImageFormat::Png).unwrap();
    let img = OcrImage::from_bytes(&png).unwrap();
    assert_eq!(img.width(), 50);
    assert_eq!(img.height(), 50);
    assert_eq!(&img.bgra_data()[0..4], &[30, 20, 10, 255]);
}

#[test]
fn from_bytes_small_png_is_dimension_error() {
    let buf = image::RgbaImage::from_raw(10, 10, vec![0u8; 10 * 10 * 4]).unwrap();
    let mut png = Vec::new();
    buf.write_to(&mut std::io::Cursor::new(&mut png), image::ImageFormat::Png).unwrap();
    assert!(matches!(OcrImage::from_bytes(&png), Err(OcrError::ImageDimensions)));
}

#[test]
fn from_bytes_garbage_is_image_error() {
    assert!(matches!(OcrImage::from_bytes(&[0, 1, 2, 3]), Err(OcrError::Image(_))));
}

fn encoded_png(width: u32, height: u32) -> Vec<u8> {
    let mut pixels = vec![0u8; (width * height * 4) as usize];
    pixels[0] = 10;
    pixels[1] = 20;
    pixels[2] = 30;
    pixels[3] = 255;
    let buf = image::RgbaImage::from_raw(width, height, pixels).unwrap();
    let mut png = Vec::new();
    buf.write_to(&mut std::io::Cursor::new(&mut png), image::ImageFormat::Png).unwrap();
    png
}

#[test]
fn from_encoded_decodes_by_extension() {
    let png = encoded_png(50, 60);
    for ext in ["png", "PNG", "Png", "apng"] {
        let img = OcrImage::from_encoded(&png, ext).unwrap();
        assert_eq!(img.width(), 50);
        assert_eq!(img.height(), 60);
        assert_eq!(img.bgra_data().len(), 50 * 60 * 4);
        assert_eq!(&img.bgra_data()[0..4], &[30, 20, 10, 255]);
    }
}

#[test]
fn from_encoded_unknown_extension_is_image_error() {
    let png = encoded_png(50, 50);
    assert!(matches!(OcrImage::from_encoded(&png, "txt"), Err(OcrError::Image(_))));
    assert!(matches!(OcrImage::from_encoded(&png, "pngx"), Err(OcrError::Image(_))));
}

#[test]
fn from_encoded_empty_extension_is_image_error() {
    let png = encoded_png(50, 50);
    assert!(matches!(OcrImage::from_encoded(&png, ""), Err(OcrError::Image(_))));
}

#[test]
fn from_encoded_uses_the_named_format() {
    // PNG bytes under a BMP name are decoded as BMP, which fails.
    let png = encoded_png(50, 50);
    assert!(matches!(OcrImage::from_encoded(&png, "bmp"), Err(OcrError::Image(_))));
}

#[test]
fn from_encoded_small_image_is_dimension_error() {
    let png = encoded_png(10, 10);
    assert!(matches!(OcrImage::from_encoded(&png, "png"), Err(OcrError::ImageDimensions)));
}

#[test]
fn from_encoded_missing_bytes_is_image_error() {
    assert!(matches!(OcrImage::from_encoded(&[], "png"), Err(OcrError::Image(_))));
}

fn encoded_jpeg(width: u32, height: u32) -> Vec<u8> {
    let buf = image::RgbImage::from_raw(width, height, vec![128u8; (width * height * 3) as usize]).unwrap();
    let mut jpeg = Vec::new();
    buf.write_to(&mut std::io::Cursor::new(&mut jpeg), image::ImageFormat::Jpeg).unwrap();
    jpeg
}

#[test]
fn from_encoded_decodes_jpeg_by_extension() {
    let jpeg = encoded_jpeg(64, 50);
    for ext in ["jpg", "JPEG", "jfif"] {
        let img = OcrImage::from_encoded(&jpeg, ext).unwrap();
        assert_eq!(img.width(), 64);
        assert_eq!(img.height(), 50);
        assert_eq!(img.bgra_data()[3], 255);
    }
}

#[test]
fn from_encoded_jpeg_under_png_name_is_image_error() {
    // The content would be recognised as JPEG, but the extension names PNG.
    let jpeg = encoded_jpeg(64, 50);
    assert!(OcrImage::from_bytes(&jpeg).is_ok());
    assert!(matches!(OcrImage::from_encoded(&jpeg, "png"), Err(OcrError::Image(_))));
}

#[test]
fn from_decoded_swaps_decoded_pixels() {
    let mut pixels = vec![0u8; 50 * 50 * 4];
    pixels[0] = 1;
    pixels[1] = 2;
    pixels[2] = 3;
    pixels[3] = 4;
    let img = OcrImage::from_decoded(Ok((50, 50, pixels))).unwrap();
    assert_eq!(img.width(), 50);
    assert_eq!(img.height(), 50);
    assert_eq!(&img.bgra_data()[0..4], &[3, 2, 1, 4]);
}

#[test]
fn from_decoded_checks_size_and_buffer() {
    assert!(matches!(OcrImage::from_decoded(Ok((10, 50, vec![0u8; 10 * 50 * 4]))), Err(OcrError::ImageDimensions)));
    assert!(matches!(
        OcrImage::from_decoded(Ok((50, 50, vec![0u8; 12]))),
        Err(OcrError::BufferSize { expected: 10000, actual: 12 })
    ));
}

#[test]
fn from_decoded_passes_the_decoder_error_on() {
    let err = image::ImageError::IoError(std::io::Error::new(std::io::ErrorKind::Other, "gone"));
    match OcrImage::from_decoded(Err(err)) {
        Err(OcrError::Image(image::ImageError::IoError(e))) => assert_eq!(e.to_string(), "gone"),
        _ => panic!("expected the decoder error back"),
    }
}
