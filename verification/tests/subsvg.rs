use usvg::geom::{AspectRatio, Rect, ScreenSize, Transform, ViewBox};
use usvg::image::{load_sub_svg, sanitize_sub_svg, sub_svg_options};
use usvg::tree::{Group, Image, ImageKind, NodeKind, Path, Tree};
use usvg::{ImageRendering, Options, ShapeRendering, TextRendering, Visibility};

fn new_tree() -> Tree {
    let size = ScreenSize::new(100, 100).unwrap();
    let view_box = ViewBox {
        rect: Rect::new(0, 0, 100, 100).unwrap(),
        aspect: AspectRatio::default(),
    };
    Tree::new(size, view_box)
}

fn image_node(id: &str) -> NodeKind {
    NodeKind::Image(Image {
        id: id.to_string(),
        transform: Transform::default(),
        visibility: Visibility::Visible,
        view_box: ViewBox {
            rect: Rect::new(0, 0, 10, 10).unwrap(),
            aspect: AspectRatio::default(),
        },
        rendering_mode: ImageRendering::OptimizeQuality,
        kind: ImageKind::RAW(vec![]),
    })
}

fn count_images(t: &Tree) -> usize {
    t.descendants(0)
        .into_iter()
        .filter(|n| matches!(t.node_kind(*n), NodeKind::Image(_)))
        .count()
}

#[test]
fn sanitize_removes_nested_images() {
    let mut t = new_tree();
    let g = t.append_kind(0, NodeKind::Group(Group::default()));
    let img1 = t.append_kind(g, image_node("a"));
    // an image nested under another image's sibling group, deeper down
    let g2 = t.append_kind(g, NodeKind::Group(Group::default()));
    let g3 = t.append_kind(g2, NodeKind::Group(Group::default()));
    t.append_kind(g3, image_node("b"));
    t.append_kind(0, image_node("c"));
    t.append_kind(0, NodeKind::Path(Path::default()));
    assert_eq!(count_images(&t), 3);
    sanitize_sub_svg(&mut t);
    assert_eq!(count_images(&t), 0);
    // the non-image content stays
    let left = t.descendants(0);
    assert!(left.contains(&g) && left.contains(&g2) && left.contains(&g3));
    let _ = img1;
}

#[test]
fn sanitize_is_idempotent() {
    let mut t = new_tree();
    let g = t.append_kind(0, NodeKind::Group(Group::default()));
    t.append_kind(g, image_node("a"));
    t.append_kind(0, image_node("b"));
    sanitize_sub_svg(&mut t);
    let once = t.clone();
    sanitize_sub_svg(&mut t);
    assert_eq!(t, once);
}

#[test]
fn load_sub_svg_degrades_on_parse_failure() {
    assert!(load_sub_svg(None).is_none());
}

#[test]
fn load_sub_svg_sanitizes() {
    let mut t = new_tree();
    t.append_kind(0, image_node("a"));
    let loaded = load_sub_svg(Some(t)).unwrap();
    assert_eq!(count_images(&loaded), 0);
}

#[test]
fn sub_svg_options_strip_context() {
    let opt = Options {
        path: Some("/tmp/a.svg".to_string()),
        dpi: 72,
        font_family: "serif".to_string(),
        font_size: 14,
        languages: vec!["de".to_string()],
        shape_rendering: ShapeRendering::CrispEdges,
        text_rendering: TextRendering::OptimizeSpeed,
        image_rendering: ImageRendering::OptimizeSpeed,
        keep_named_groups: true,
    };
    let sub = sub_svg_options(&opt);
    assert_eq!(sub.path, None);
    assert_eq!(sub.keep_named_groups, false);
    assert_eq!(sub.dpi, 72);
    assert_eq!(sub.font_family, "serif");
    assert_eq!(sub.font_size, 14);
    assert_eq!(sub.languages, vec!["de".to_string()]);
    assert_eq!(sub.shape_rendering, ShapeRendering::CrispEdges);
    assert_eq!(sub.text_rendering, TextRendering::OptimizeSpeed);
    assert_eq!(sub.image_rendering, ImageRendering::OptimizeSpeed);
}
