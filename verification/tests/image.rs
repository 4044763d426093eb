use usvg::image::{get_image_data_format, get_image_file_format, get_href_data, image_to_pixmap,
    read_jpeg, read_png, read_raw, ImageData, ImageFormat};
use usvg::tree::ImageKind;
use usvg::{ImageRendering, Options, ShapeRendering, TextRendering};

fn options() -> Options {
    Options {
        path: None,
        dpi: 96,
        font_family: "sans-serif".to_string(),
        font_size: 12,
        languages: vec!["en".to_string()],
        shape_rendering: ShapeRendering::GeometricPrecision,
        text_rendering: TextRendering::OptimizeLegibility,
        image_rendering: ImageRendering::OptimizeQuality,
        keep_named_groups: false,
    }
}

const PNG_MAGIC: [u8; 8] = [0x89, 0x50, 0x4e, 0x47, 0x0d, 0x0a, 0x1a, 0x0a];

fn red_pixel_png() -> Vec<u8> {
    let mut out: Vec<u8> = Vec::new();
    {
        let mut encoder = png::Encoder::new(&mut out, 1, 1);
        encoder.set_color(png::ColorType::Rgba);
        encoder.set_depth(png::BitDepth::Eight);
        let mut writer = encoder.write_header().unwrap();
        writer.write_image_data(&[255, 0, 0, 255]).unwrap();
        writer.finish().unwrap();
    }
    out
}

fn percent_encode(data: &[u8]) -> String {
    let mut s = String::new();
    for b in data {
        s.push_str(&format!("%{:02X}", b));
    }
    s
}

#[test]
fn sniffing_recognizes_magic_bytes() {
    let mut png = PNG_MAGIC.to_vec();
    png.extend_from_slice(b"rest");
    assert_eq!(get_image_data_format(&png), Some(ImageFormat::PNG));
    assert_eq!(get_image_data_format(&[0xff, 0xd8, 0xff, 0xe0]), Some(ImageFormat::JPEG));
    assert_eq!(get_image_data_format(b"<svg/>"), None);
    assert_eq!(get_image_data_format(&[]), None);
}

#[test]
fn file_format_prefers_svg_extension() {
    let png = red_pixel_png();
    assert_eq!(get_image_file_format("a.svg", &png), Some(ImageFormat::SVG));
    assert_eq!(get_image_file_format("dir.v2/a.SVGZ", &png), Some(ImageFormat::SVG));
    assert_eq!(get_image_file_format("a.png", &png), Some(ImageFormat::PNG));
    // fewer than eight bytes cannot be sniffed in the file path
    assert_eq!(get_image_file_format("a.bin", &[0xff, 0xd8, 0xff]), None);
    assert_eq!(get_image_file_format("noext", &png), Some(ImageFormat::PNG));
}

#[test]
fn data_url_png_is_decoded() {
    let png = red_pixel_png();
    let href = format!("data:image/png,{}", percent_encode(&png));
    let opt = options();
    match get_href_data("img1", &href, None, &opt) {
        Some(ImageKind::PNG(data)) => assert_eq!(data, png),
        other => panic!("unexpected kind: {:?}", other.is_some()),
    }
}

#[test]
fn data_url_text_plain_sniffs_png() {
    // declared media type does not override the magic bytes
    let png = red_pixel_png();
    let href = format!("data:text/plain,{}", percent_encode(&png));
    let opt = options();
    match get_href_data("img1", &href, None, &opt) {
        Some(ImageKind::PNG(data)) => assert_eq!(data, png),
        other => panic!("unexpected kind: {:?}", other.is_some()),
    }
}

#[test]
fn data_url_text_plain_falls_back_to_vector() {
    let opt = options();
    match get_href_data("img1", "data:text/plain,<svg/>", None, &opt) {
        Some(ImageKind::SVG(data, _)) => assert_eq!(data, b"<svg/>".to_vec()),
        other => panic!("unexpected kind: {:?}", other.is_some()),
    }
}

#[test]
fn data_url_unknown_subtype_is_rejected() {
    let opt = options();
    assert!(get_href_data("img1", "data:image/webp,abc", None, &opt).is_none());
}

#[test]
fn file_reference_uses_read_bytes() {
    let png = red_pixel_png();
    let opt = options();
    match get_href_data("img1", "picture.png", Some(&png), &opt) {
        Some(ImageKind::PNG(data)) => assert_eq!(data, png),
        other => panic!("unexpected kind: {:?}", other.is_some()),
    }
    // an unreadable file fails the resolution
    assert!(get_href_data("img1", "picture.png", None, &opt).is_none());
}

#[test]
fn read_raw_parses_header_and_pixels() {
    let mut data: Vec<u8> = Vec::new();
    data.extend_from_slice(&1u32.to_be_bytes());
    data.extend_from_slice(&2u32.to_be_bytes());
    data.extend_from_slice(&[1, 2, 3, 4, 5, 6, 7, 8]);
    let img = read_raw(&data).unwrap();
    assert_eq!(img.size.dimensions(), (1, 2));
    match img.data {
        ImageData::RGBA(v) => assert_eq!(v, vec![1, 2, 3, 4, 5, 6, 7, 8]),
        _ => panic!("expected RGBA"),
    }
}

#[test]
fn read_raw_rejects_bad_input() {
    assert!(read_raw(&[0, 0]).is_none());
    let mut zero: Vec<u8> = Vec::new();
    zero.extend_from_slice(&0u32.to_be_bytes());
    zero.extend_from_slice(&1u32.to_be_bytes());
    assert!(read_raw(&zero).is_none());
    let mut short: Vec<u8> = Vec::new();
    short.extend_from_slice(&2u32.to_be_bytes());
    short.extend_from_slice(&2u32.to_be_bytes());
    short.extend_from_slice(&[0; 15]);
    assert!(read_raw(&short).is_none());
}

#[test]
fn read_png_decodes_a_red_pixel() {
    let img = read_png(&red_pixel_png()).unwrap();
    assert_eq!(img.size.dimensions(), (1, 1));
    match img.data {
        ImageData::RGBA(v) => assert_eq!(v, vec![255, 0, 0, 255]),
        _ => panic!("expected RGBA"),
    }
}

#[test]
fn read_png_expands_grayscale() {
    let mut out: Vec<u8> = Vec::new();
    {
        let mut encoder = png::Encoder::new(&mut out, 2, 1);
        encoder.set_color(png::ColorType::Grayscale);
        encoder.set_depth(png::BitDepth::Eight);
        let mut writer = encoder.write_header().unwrap();
        writer.write_image_data(&[7, 200]).unwrap();
        writer.finish().unwrap();
    }
    let img = read_png(&out).unwrap();
    assert_eq!(img.size.dimensions(), (2, 1));
    match img.data {
        ImageData::RGB(v) => assert_eq!(v, vec![7, 7, 7, 200, 200, 200]),
        _ => panic!("expected RGB"),
    }
}

#[test]
fn read_png_expands_grayscale_alpha() {
    let mut out: Vec<u8> = Vec::new();
    {
        let mut encoder = png::Encoder::new(&mut out, 1, 2);
        encoder.set_color(png::ColorType::GrayscaleAlpha);
        encoder.set_depth(png::BitDepth::Eight);
        let mut writer = encoder.write_header().unwrap();
        writer.write_image_data(&[9, 100, 30, 255]).unwrap();
        writer.finish().unwrap();
    }
    let img = read_png(&out).unwrap();
    assert_eq!(img.size.dimensions(), (1, 2));
    match img.data {
        ImageData::RGBA(v) => assert_eq!(v, vec![9, 9, 9, 100, 30, 30, 30, 255]),
        _ => panic!("expected RGBA"),
    }
}

#[test]
fn read_png_rejects_garbage() {
    assert!(read_png(b"not a png").is_none());
}

#[test]
fn read_jpeg_rejects_garbage() {
    assert!(read_jpeg(b"not a jpeg").is_none());
}

#[test]
fn pixmap_adds_opaque_alpha_to_rgb() {
    let img = read_raw_like_rgb(vec![1, 2, 3, 4, 5, 6]);
    let mut pixmap: Vec<u8> = Vec::new();
    image_to_pixmap(&img, &mut pixmap);
    assert_eq!(pixmap, vec![1, 2, 3, 255, 4, 5, 6, 255]);
}

fn read_raw_like_rgb(data: Vec<u8>) -> usvg::image::RasterImage {
    usvg::image::RasterImage {
        size: usvg::geom::ScreenSize::new((data.len() / 3) as u32, 1).unwrap(),
        data: ImageData::RGB(data),
    }
}

#[test]
fn pixmap_premultiplies_rgba() {
    let img = usvg::image::RasterImage {
        size: usvg::geom::ScreenSize::new(1, 1).unwrap(),
        data: ImageData::RGBA(vec![255, 100, 0, 128]),
    };
    let mut pixmap: Vec<u8> = Vec::new();
    image_to_pixmap(&img, &mut pixmap);
    let scale = |c: u8| -> u8 { (c as f64 * (128.0 / 255.0) + 0.5) as u8 };
    assert_eq!(pixmap, vec![scale(255), scale(100), scale(0), 128]);
}
