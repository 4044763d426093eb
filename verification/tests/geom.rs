use usvg::geom::{aligned_pos, Align, AspectRatio, Rect, ScreenSize, Transform, ViewBox};
use usvg::image::{image_rect, view_box_clip};

fn vb(x: i64, y: i64, w: i64, h: i64, align: Align, slice: bool) -> ViewBox {
    ViewBox {
        rect: Rect::new(x, y, w, h).unwrap(),
        aspect: AspectRatio { defer: false, align, slice },
    }
}

#[test]
fn transform_append_identity() {
    let id = Transform::default();
    let t = Transform::new(2, 0, 0, 3, 10, 20);
    assert_eq!(id.append(&t), Some(t));
    assert_eq!(t.append(&id), Some(t));
}

#[test]
fn transform_append_composes() {
    let translate = Transform::new(1, 0, 0, 1, 10, 20);
    let scale = Transform::new(2, 0, 0, 2, 0, 0);
    let c = translate.append(&scale).unwrap();
    assert_eq!(c, Transform::new(2, 0, 0, 2, 10, 20));
}

#[test]
fn transform_append_is_associative() {
    let a = Transform::new(2, 1, 0, 3, 5, -7);
    let b = Transform::new(1, 0, 4, 1, -2, 9);
    let c = Transform::new(0, 2, 1, 1, 3, 3);
    let left = a.append(&b).unwrap().append(&c).unwrap();
    let right = a.append(&b.append(&c).unwrap()).unwrap();
    assert_eq!(left, right);
}

#[test]
fn transform_append_rejects_out_of_range() {
    let big = Transform::new(2_000_000_000, 0, 0, 1, 0, 0);
    let id = Transform::default();
    assert_eq!(big.append(&id), None);
}

#[test]
fn transform_apply_moves_points() {
    let t = Transform::new(2, 0, 0, 3, 10, 20);
    assert_eq!(t.apply(1, 1), Some((12, 23)));
}

#[test]
fn screen_size_rejects_zero() {
    assert!(ScreenSize::new(0, 5).is_none());
    assert!(ScreenSize::new(5, 0).is_none());
    assert_eq!(ScreenSize::new(3, 4).unwrap().dimensions(), (3, 4));
}

#[test]
fn rect_rejects_empty_sides() {
    assert!(Rect::new(0, 0, 0, 5).is_none());
    assert!(Rect::new(0, 0, 5, -1).is_none());
    assert!(Rect::new(-2, -3, 5, 1).is_some());
}

#[test]
fn aligned_pos_anchors() {
    assert_eq!(aligned_pos(Align::XMinYMin, 10, 20, 6, 8), (10, 20));
    assert_eq!(aligned_pos(Align::XMidYMid, 10, 20, 6, 8), (13, 24));
    assert_eq!(aligned_pos(Align::XMaxYMax, 10, 20, 6, 8), (16, 28));
}

#[test]
fn image_fills_view_rect_under_none_alignment() {
    // a 1x1 source stretched into a 100x50 view rectangle lands
    // exactly on the rectangle
    let size = ScreenSize::new(1, 1).unwrap();
    let r = image_rect(&vb(0, 0, 100, 50, Align::NoAlign, false), size);
    assert_eq!(r, Rect::new(0, 0, 100, 50).unwrap());
}

#[test]
fn image_rect_meet_centers() {
    // uniform fit of a square source into 100x50 gives 50x50, centered
    let size = ScreenSize::new(1, 1).unwrap();
    let r = image_rect(&vb(0, 0, 100, 50, Align::XMidYMid, false), size);
    assert_eq!(r, Rect::new(25, 0, 50, 50).unwrap());
}

#[test]
fn image_rect_slice_overflows_and_covers() {
    let size = ScreenSize::new(1, 1).unwrap();
    let view = vb(0, 0, 100, 50, Align::XMidYMid, true);
    let r = image_rect(&view, size);
    assert_eq!(r, Rect::new(0, -25, 100, 100).unwrap());
    // the placement covers the whole view rectangle
    assert!(r.x <= 0 && r.y <= 0);
    assert!(r.x + r.width >= 100 && r.y + r.height >= 50);
    // and the clip constrains drawing to the view rectangle
    assert_eq!(view_box_clip(&view), Some(view.rect));
    assert_eq!(view_box_clip(&vb(0, 0, 100, 50, Align::XMidYMid, false)), None);
}

#[test]
fn image_rect_meet_non_square() {
    // 2x1 source into 100x100: width bound, 100x50, centered vertically
    let size = ScreenSize::new(2, 1).unwrap();
    let r = image_rect(&vb(0, 0, 100, 100, Align::XMidYMid, false), size);
    assert_eq!(r, Rect::new(0, 25, 100, 50).unwrap());
}
