use std::io::Write;

use usvg::{deflate, svg_text_from_data, Error, ShapeRendering};

fn gzip(data: &[u8]) -> Vec<u8> {
    let mut encoder = flate2::write::GzEncoder::new(Vec::new(), flate2::Compression::default());
    encoder.write_all(data).unwrap();
    encoder.finish().unwrap()
}

#[test]
fn plain_text_passes_through() {
    assert_eq!(svg_text_from_data(b"<svg/>"), Ok("<svg/>".to_string()));
}

#[test]
fn gzip_data_is_decompressed() {
    let compressed = gzip(b"<svg width='1'/>");
    assert_eq!(svg_text_from_data(&compressed), Ok("<svg width='1'/>".to_string()));
    assert_eq!(deflate(&compressed), Ok("<svg width='1'/>".to_string()));
}

#[test]
fn malformed_gzip_is_an_error() {
    // gzip magic followed by garbage
    let data = [0x1f, 0x8b, 0x00, 0x01, 0x02];
    assert_eq!(svg_text_from_data(&data), Err(Error::MalformedGZip));
}

#[test]
fn invalid_utf8_is_an_error() {
    assert_eq!(svg_text_from_data(&[0xff, 0xfe, 0x3c]), Err(Error::NotAnUtf8Str));
    let compressed = gzip(&[0xff, 0xfe]);
    assert_eq!(deflate(&compressed), Err(Error::NotAnUtf8Str));
}

#[test]
fn shape_antialiasing_follows_rendering_mode() {
    assert!(!ShapeRendering::OptimizeSpeed.use_shape_antialiasing());
    assert!(!ShapeRendering::CrispEdges.use_shape_antialiasing());
    assert!(ShapeRendering::GeometricPrecision.use_shape_antialiasing());
    assert_eq!(ShapeRendering::default(), ShapeRendering::GeometricPrecision);
}
