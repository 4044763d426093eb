use usvg::geom::{Align, AspectRatio, Rect, ScreenSize, Transform, ViewBox};
use usvg::image::{convert, image_rect};
use usvg::svgtree::{ETag, Element};
use usvg::tree::{NodeKind, Tree};
use usvg::{ImageRendering, Options, ShapeRendering, TextRendering, Visibility};

fn options() -> Options {
    Options {
        path: None,
        dpi: 96,
        font_family: "sans-serif".to_string(),
        font_size: 12,
        languages: vec!["en".to_string()],
        shape_rendering: ShapeRendering::GeometricPrecision,
        text_rendering: TextRendering::OptimizeLegibility,
        image_rendering: ImageRendering::OptimizeQuality,
        keep_named_groups: false,
    }
}

fn new_tree() -> Tree {
    let size = ScreenSize::new(200, 200).unwrap();
    let view_box = ViewBox {
        rect: Rect::new(0, 0, 200, 200).unwrap(),
        aspect: AspectRatio::default(),
    };
    Tree::new(size, view_box)
}

fn red_pixel_png() -> Vec<u8> {
    let mut out: Vec<u8> = Vec::new();
    {
        let mut encoder = png::Encoder::new(&mut out, 1, 1);
        encoder.set_color(png::ColorType::Rgba);
        encoder.set_depth(png::BitDepth::Eight);
        let mut writer = encoder.write_header().unwrap();
        writer.write_image_data(&[255, 0, 0, 255]).unwrap();
        writer.finish().unwrap();
    }
    out
}

fn percent_encode(data: &[u8]) -> String {
    let mut s = String::new();
    for b in data {
        s.push_str(&format!("%{:02X}", b));
    }
    s
}

fn image_element(href: Option<String>, w: i64, h: i64) -> Element {
    Element {
        tag: ETag::Image,
        id: "img1".to_string(),
        transform_valid: true,
        transform: Transform::default(),
        clip_path_link: None,
        units: None,
        children: vec![],
        path: None,
        visibility: None,
        rendering_mode: None,
        x: 0,
        y: 0,
        width: w,
        height: h,
        aspect: Some(AspectRatio { defer: false, align: Align::NoAlign, slice: false }),
        href,
    }
}

#[test]
fn image_element_with_png_data_url_is_appended() {
    let png = red_pixel_png();
    let href = format!("data:image/png,{}", percent_encode(&png));
    let elem = image_element(Some(href), 100, 50);
    let mut tree = new_tree();
    convert(&elem, &options(), None, &mut tree, 0);
    assert_eq!(tree.children(0).len(), 1);
    let node = tree.children(0)[0];
    match tree.node_kind(node) {
        NodeKind::Image(img) => {
            assert_eq!(img.id, "img1");
            assert_eq!(img.view_box.rect, Rect::new(0, 0, 100, 50).unwrap());
            assert_eq!(img.visibility, Visibility::Visible);
            assert_eq!(img.rendering_mode, ImageRendering::OptimizeQuality);
            // the stretched 1x1 source lands exactly on the 100x50
            // view rectangle, at its origin
            let size = ScreenSize::new(1, 1).unwrap();
            let placement = image_rect(&img.view_box, size);
            assert_eq!(placement, Rect::new(0, 0, 100, 50).unwrap());
        },
        _ => panic!("expected an image node"),
    }
}

#[test]
fn image_element_with_invalid_size_is_skipped() {
    let png = red_pixel_png();
    let href = format!("data:image/png,{}", percent_encode(&png));
    let elem = image_element(Some(href), 0, 50);
    let mut tree = new_tree();
    convert(&elem, &options(), None, &mut tree, 0);
    assert_eq!(tree.children(0).len(), 0);
}

#[test]
fn image_element_without_href_is_skipped() {
    let elem = image_element(None, 100, 50);
    let mut tree = new_tree();
    convert(&elem, &options(), None, &mut tree, 0);
    assert_eq!(tree.children(0).len(), 0);
}

#[test]
fn image_element_with_unresolvable_href_is_skipped() {
    let elem = image_element(Some("data:image/webp,abc".to_string()), 100, 50);
    let mut tree = new_tree();
    convert(&elem, &options(), None, &mut tree, 0);
    assert_eq!(tree.children(0).len(), 0);
}
