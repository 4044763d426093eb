use usvg::geom::{Align, AspectRatio, PathBbox, Rect, ScreenSize, Transform, ViewBox};
use usvg::tree::{Group, Image, ImageKind, NodeKind, Path, PathData, PathSegment, Tree};
use usvg::{Paint, Color, Stroke, Visibility, ImageRendering};

fn new_tree() -> Tree {
    let size = ScreenSize::new(100, 100).unwrap();
    let view_box = ViewBox {
        rect: Rect::new(0, 0, 100, 100).unwrap(),
        aspect: AspectRatio::default(),
    };
    Tree::new(size, view_box)
}

fn path_node(segs: Vec<PathSegment>, transform: Transform, stroke: Option<Stroke>) -> NodeKind {
    let mut p = Path::default();
    p.data = PathData(segs);
    p.transform = transform;
    p.stroke = stroke;
    NodeKind::Path(p)
}

fn group_node(transform: Transform) -> NodeKind {
    let mut g = Group::default();
    g.transform = transform;
    NodeKind::Group(g)
}

fn image_node(id: &str, rect: Rect) -> NodeKind {
    NodeKind::Image(Image {
        id: id.to_string(),
        transform: Transform::default(),
        visibility: Visibility::Visible,
        view_box: ViewBox { rect, aspect: AspectRatio::default() },
        rendering_mode: ImageRendering::OptimizeQuality,
        kind: ImageKind::RAW(vec![]),
    })
}

#[test]
fn append_and_traverse() {
    let mut t = new_tree();
    let a = t.append_kind(0, group_node(Transform::default()));
    let b = t.append_kind(a, path_node(vec![], Transform::default(), None));
    let c = t.append_kind(0, path_node(vec![], Transform::default(), None));
    assert_eq!(t.children(0), vec![a, c]);
    // descendants walk in pre-order
    assert_eq!(t.descendants(0), vec![0, a, b, c]);
    // ancestors walk nearest-first, the node itself included
    assert_eq!(t.ancestors(b), vec![b, a, 0]);
}

#[test]
fn detach_removes_subtree_from_walk() {
    let mut t = new_tree();
    let a = t.append_kind(0, group_node(Transform::default()));
    let b = t.append_kind(a, path_node(vec![], Transform::default(), None));
    let c = t.append_kind(0, path_node(vec![], Transform::default(), None));
    t.detach(a);
    assert_eq!(t.descendants(0), vec![0, c]);
    assert_eq!(t.children(0), vec![c]);
    let _ = b;
}

#[test]
fn node_by_id_finds_first_and_ignores_empty() {
    let mut t = new_tree();
    let a = t.append_kind(0, image_node("pic", Rect::new(0, 0, 10, 10).unwrap()));
    let b = t.append_kind(0, image_node("pic", Rect::new(0, 0, 20, 20).unwrap()));
    assert_eq!(t.node_by_id("pic"), Some(a));
    assert_eq!(t.node_by_id("missing"), None);
    assert_eq!(t.node_by_id(""), None);
    let _ = b;
}

#[test]
fn abs_transform_composes_root_to_leaf() {
    let mut t = new_tree();
    let translate = Transform::new(1, 0, 0, 1, 10, 20);
    let scale = Transform::new(2, 0, 0, 2, 0, 0);
    let a = t.append_kind(0, group_node(translate));
    let b = t.append_kind(a, path_node(vec![], scale, None));
    // root is identity; the child's effect layers on the parent's
    assert_eq!(t.abs_transform(b), Some(Transform::new(2, 0, 0, 2, 10, 20)));
}

#[test]
fn bbox_of_path_line() {
    let mut t = new_tree();
    let segs = vec![
        PathSegment::MoveTo { x: 0, y: 0 },
        PathSegment::LineTo { x: 10, y: 0 },
    ];
    let a = t.append_kind(0, path_node(segs, Transform::default(), None));
    let b = t.calculate_bbox(a).unwrap();
    assert_eq!(b, PathBbox { min_x: 0, min_y: 0, max_x: 10, max_y: 0 });
}

#[test]
fn bbox_of_empty_group_is_none() {
    let mut t = new_tree();
    let g = t.append_kind(0, group_node(Transform::default()));
    assert_eq!(t.calculate_bbox(g), None);
}

#[test]
fn bbox_of_zero_area_path_needs_stroke() {
    let mut t = new_tree();
    let point = vec![PathSegment::MoveTo { x: 5, y: 5 }];
    let bare = t.append_kind(0, path_node(point.clone(), Transform::default(), None));
    // a zero-area path without stroke contributes nothing
    assert_eq!(t.calculate_bbox(bare), None);
    let stroke = Stroke {
        paint: Paint::Color(Color { red: 0, green: 0, blue: 0 }),
        opacity: 255,
        width: 4,
    };
    let stroked = t.append_kind(0, path_node(point, Transform::default(), Some(stroke)));
    // half the stroke width on every side
    assert_eq!(
        t.calculate_bbox(stroked),
        Some(PathBbox { min_x: 3, min_y: 3, max_x: 7, max_y: 7 })
    );
}

#[test]
fn bbox_of_group_unions_children() {
    let mut t = new_tree();
    let g = t.append_kind(0, group_node(Transform::default()));
    let segs1 = vec![
        PathSegment::MoveTo { x: 0, y: 0 },
        PathSegment::LineTo { x: 10, y: 5 },
    ];
    let segs2 = vec![
        PathSegment::MoveTo { x: -4, y: 2 },
        PathSegment::LineTo { x: 3, y: 30 },
    ];
    t.append_kind(g, path_node(segs1, Transform::default(), None));
    t.append_kind(g, path_node(segs2, Transform::default(), None));
    assert_eq!(
        t.calculate_bbox(g),
        Some(PathBbox { min_x: -4, min_y: 0, max_x: 10, max_y: 30 })
    );
}

#[test]
fn bbox_applies_transforms() {
    let mut t = new_tree();
    let scale = Transform::new(2, 0, 0, 2, 0, 0);
    let g = t.append_kind(0, group_node(scale));
    let segs = vec![
        PathSegment::MoveTo { x: 1, y: 1 },
        PathSegment::LineTo { x: 5, y: 2 },
    ];
    let p = t.append_kind(g, path_node(segs, Transform::default(), None));
    assert_eq!(
        t.calculate_bbox(p),
        Some(PathBbox { min_x: 2, min_y: 2, max_x: 10, max_y: 4 })
    );
}

#[test]
fn bbox_of_image_is_its_view_rect() {
    let mut t = new_tree();
    let a = t.append_kind(0, image_node("i", Rect::new(10, 20, 30, 40).unwrap()));
    assert_eq!(
        t.calculate_bbox(a),
        Some(PathBbox { min_x: 10, min_y: 20, max_x: 40, max_y: 60 })
    );
}

#[test]
fn node_kind_accessors() {
    let n = image_node("pic", Rect::new(0, 0, 1, 1).unwrap());
    assert_eq!(n.id(), "pic");
    assert_eq!(n.transform(), Transform::default());
}
