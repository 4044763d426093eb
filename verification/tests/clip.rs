use usvg::clip::convert;
use usvg::geom::{AspectRatio, Rect, ScreenSize, Transform, ViewBox};
use usvg::svgtree::{Document, ETag, Element};
use usvg::tree::{Path, Tree};

fn new_tree() -> Tree {
    let size = ScreenSize::new(100, 100).unwrap();
    let view_box = ViewBox {
        rect: Rect::new(0, 0, 100, 100).unwrap(),
        aspect: AspectRatio::default(),
    };
    Tree::new(size, view_box)
}

fn element(tag: ETag, id: &str) -> Element {
    Element {
        tag,
        id: id.to_string(),
        transform_valid: true,
        transform: Transform::default(),
        clip_path_link: None,
        units: None,
        children: vec![],
        path: None,
        visibility: None,
        rendering_mode: None,
        x: 0,
        y: 0,
        width: 0,
        height: 0,
        aspect: None,
        href: None,
    }
}

fn path_child() -> Element {
    let mut e = element(ETag::Path, "");
    e.path = Some(Path::default());
    e
}

#[test]
fn valid_clip_path_resolves() {
    // element 0: clipPath with a path child (element 1)
    let mut clip = element(ETag::ClipPath, "c1");
    clip.children = vec![1];
    let doc = Document { elements: vec![clip, path_child()] };
    let mut tree = new_tree();
    let mut visiting = vec![false; 2];
    let r = convert(&doc, 0, &mut tree, &mut visiting);
    assert_eq!(r, Some("c1".to_string()));
    assert_eq!(tree.clip_paths.len(), 1);
    assert_eq!(tree.clip_paths[0].id, "c1");
    assert_eq!(tree.clip_paths[0].clip_path, None);
    assert!(tree.has_children(tree.clip_paths[0].root));
}

#[test]
fn registry_lookup_finds_resolved_entries() {
    let mut clip = element(ETag::ClipPath, "c1");
    clip.children = vec![1];
    let doc = Document { elements: vec![clip, path_child()] };
    let mut tree = new_tree();
    let mut visiting = vec![false; 2];
    convert(&doc, 0, &mut tree, &mut visiting);
    assert_eq!(tree.defs_by_id(&"c1".to_string()), Some(0));
    assert_eq!(tree.defs_by_id(&"other".to_string()), None);
}

#[test]
fn clip_path_resolution_is_memoized() {
    let mut clip = element(ETag::ClipPath, "c1");
    clip.children = vec![1];
    let doc = Document { elements: vec![clip, path_child()] };
    let mut tree = new_tree();
    let mut visiting = vec![false; 2];
    assert_eq!(convert(&doc, 0, &mut tree, &mut visiting), Some("c1".to_string()));
    // a second reference hits the registry and adds nothing
    assert_eq!(convert(&doc, 0, &mut tree, &mut visiting), Some("c1".to_string()));
    assert_eq!(tree.clip_paths.len(), 1);
}

#[test]
fn chained_clip_paths_resolve_to_the_chain() {
    // 0 links 2, both have a path child
    let mut head = element(ETag::ClipPath, "a");
    head.children = vec![1];
    head.clip_path_link = Some(2);
    let mut tail = element(ETag::ClipPath, "b");
    tail.children = vec![3];
    let doc = Document { elements: vec![head, path_child(), tail, path_child()] };
    let mut tree = new_tree();
    let mut visiting = vec![false; 4];
    let r = convert(&doc, 0, &mut tree, &mut visiting);
    assert_eq!(r, Some("a".to_string()));
    assert_eq!(tree.clip_paths.len(), 2);
    assert_eq!(tree.clip_paths[0].id, "b");
    assert_eq!(tree.clip_paths[1].id, "a");
    assert_eq!(tree.clip_paths[1].clip_path, Some("b".to_string()));
}

#[test]
fn broken_link_fails_whole_resolution() {
    // the linked clip path has no children, so the head fails too
    let mut head = element(ETag::ClipPath, "a");
    head.children = vec![1];
    head.clip_path_link = Some(2);
    let tail = element(ETag::ClipPath, "b");
    let doc = Document { elements: vec![head, path_child(), tail] };
    let mut tree = new_tree();
    let mut visiting = vec![false; 3];
    assert_eq!(convert(&doc, 0, &mut tree, &mut visiting), None);
}

#[test]
fn self_referencing_clip_path_fails() {
    let mut clip = element(ETag::ClipPath, "c1");
    clip.children = vec![1];
    clip.clip_path_link = Some(0);
    let doc = Document { elements: vec![clip, path_child()] };
    let mut tree = new_tree();
    let mut visiting = vec![false; 2];
    assert_eq!(convert(&doc, 0, &mut tree, &mut visiting), None);
}

#[test]
fn reference_cycle_fails_without_looping() {
    let mut a = element(ETag::ClipPath, "a");
    a.children = vec![2];
    a.clip_path_link = Some(1);
    let mut b = element(ETag::ClipPath, "b");
    b.children = vec![3];
    b.clip_path_link = Some(0);
    let doc = Document { elements: vec![a, b, path_child(), path_child()] };
    let mut tree = new_tree();
    let mut visiting = vec![false; 4];
    assert_eq!(convert(&doc, 0, &mut tree, &mut visiting), None);
}

#[test]
fn empty_clip_path_leaves_no_registry_entry() {
    // no children after conversion: the resource must not survive
    let clip = element(ETag::ClipPath, "c1");
    let doc = Document { elements: vec![clip] };
    let mut tree = new_tree();
    let mut visiting = vec![false; 1];
    assert_eq!(convert(&doc, 0, &mut tree, &mut visiting), None);
    assert_eq!(tree.clip_paths.len(), 0);
    assert_eq!(tree.defs_by_id(&"c1".to_string()), None);
}

#[test]
fn wrong_tag_and_invalid_transform_are_rejected() {
    let not_clip = element(ETag::Path, "c1");
    let mut bad_transform = element(ETag::ClipPath, "c2");
    bad_transform.transform_valid = false;
    bad_transform.children = vec![2];
    let doc = Document { elements: vec![not_clip, bad_transform, path_child()] };
    let mut tree = new_tree();
    let mut visiting = vec![false; 3];
    assert_eq!(convert(&doc, 0, &mut tree, &mut visiting), None);
    assert_eq!(convert(&doc, 1, &mut tree, &mut visiting), None);
    assert_eq!(tree.clip_paths.len(), 0);
}
