//! The node/tree model: a tree of group, path and image nodes held in
//! an arena, with structural operations, traversals, absolute
//! transforms and bounding boxes, plus the per-tree registry of
//! resolved clip-path resources.
//!
//! Nodes are addressed by index. A node owns its children; the parent
//! link is a non-owning back-reference. Every child index is strictly
//! greater than its parent's, which makes all traversals terminate.

use vstd::prelude::*;

use crate::geom::{MAX_COORD, PathBbox, Rect, ScreenSize, Transform, ViewBox};
use crate::{EnableBackground, Fill, ImageRendering, Options, PaintOrder, ShapeRendering, Stroke,
    Units, Visibility};

verus! {

use vstd::string::StringSliceAdditionalSpecFns;

/// One absolute-coordinate path segment.
#[derive(Clone, Copy, PartialEq, Eq, Structural, Debug)]
pub enum PathSegment {
    MoveTo { x: i64, y: i64 },
    LineTo { x: i64, y: i64 },
    CurveTo { x1: i64, y1: i64, x2: i64, y2: i64, x: i64, y: i64 },
    ClosePath,
}

/// A segment list; absolute coordinates, no implicit commands.
#[derive(Clone, PartialEq, Debug)]
pub struct PathData(pub Vec<PathSegment>);

/// A path element.
#[derive(Clone, PartialEq, Debug)]
pub struct Path {
    /// Element id; taken from the document itself, may be empty.
    pub id: String,
    /// Element transform.
    pub transform: Transform,
    /// Element visibility.
    pub visibility: Visibility,
    /// Fill style.
    pub fill: Option<Fill>,
    /// Stroke style.
    pub stroke: Option<Stroke>,
    /// Fill and stroke paint order.
    pub paint_order: PaintOrder,
    /// Rendering mode hint.
    pub rendering_mode: ShapeRendering,
    /// Bounding box from font metrics, set only for paths made of text.
    pub text_bbox: Option<Rect>,
    /// Segments list, in absolute coordinates.
    pub data: PathData,
}

impl Default for Path {
    fn default() -> (r: Self)
        ensures
            r.id@.len() == 0,
            r.transform@ == crate::geom::tidentity(),
            r.visibility is Visible,
            r.fill is None,
            r.stroke is None,
            r.paint_order is FillAndStroke,
            r.rendering_mode is GeometricPrecision,
            r.text_bbox is None,
            r.data.0@.len() == 0,
    {
        Path {
            id: String::new(),
            transform: Transform::default(),
            visibility: Visibility::Visible,
            fill: None,
            stroke: None,
            paint_order: PaintOrder::FillAndStroke,
            rendering_mode: ShapeRendering::GeometricPrecision,
            text_bbox: None,
            data: PathData(Vec::new()),
        }
    }
}

/// A group container.
///
/// Opacity runs from 0 (transparent) to 255 (opaque). The clip path
/// and mask fields name shared resources by id.
#[derive(Clone, PartialEq, Debug)]
pub struct Group {
    /// Element id; taken from the document itself, may be empty.
    pub id: String,
    /// Element transform.
    pub transform: Transform,
    /// Group opacity, combined with the parent after rendering.
    pub opacity: u8,
    /// Id of the group's clip path, if any.
    pub clip_path: Option<String>,
    /// Id of the group's mask, if any.
    pub mask: Option<String>,
    /// Marks the node as the start of a new background.
    pub enable_background: Option<EnableBackground>,
}

impl Default for Group {
    fn default() -> (r: Self)
        ensures
            r.id@.len() == 0,
            r.transform@ == crate::geom::tidentity(),
            r.opacity == 255,
            r.clip_path is None,
            r.mask is None,
            r.enable_background is None,
    {
        Group {
            id: String::new(),
            transform: Transform::default(),
            opacity: 255,
            clip_path: None,
            mask: None,
            enable_background: None,
        }
    }
}

/// An image element's payload: raw encoded bytes, a raw pixel buffer,
/// or an embedded vector sub-document plus the options to parse it with.
#[derive(Clone, PartialEq, Debug)]
pub enum ImageKind {
    PNG(Vec<u8>),
    JPEG(Vec<u8>),
    RAW(Vec<u8>),
    SVG(Vec<u8>, Options),
}

/// An image element.
#[derive(Clone, PartialEq, Debug)]
pub struct Image {
    /// Element id; taken from the document itself, may be empty.
    pub id: String,
    /// Element transform.
    pub transform: Transform,
    /// Element visibility.
    pub visibility: Visibility,
    /// View rectangle with its aspect-ratio rule.
    pub view_box: ViewBox,
    /// Rendering mode hint.
    pub rendering_mode: ImageRendering,
    /// The image content.
    pub kind: ImageKind,
}

/// A node's payload.
#[derive(Clone, PartialEq, Debug)]
pub enum NodeKind {
    Group(Group),
    Path(Path),
    Image(Image),
}

impl NodeKind {
    /// The node's id as a sequence of characters.
    pub open spec fn spec_id(&self) -> Seq<char> {
        match self {
            NodeKind::Group(e) => e.id@,
            NodeKind::Path(e) => e.id@,
            NodeKind::Image(e) => e.id@,
        }
    }

    /// The node's local transform.
    pub open spec fn spec_transform(&self) -> Transform {
        match self {
            NodeKind::Group(e) => e.transform,
            NodeKind::Path(e) => e.transform,
            NodeKind::Image(e) => e.transform,
        }
    }

    /// Returns node's ID.
    pub fn id(&self) -> (r: &str)
        ensures
            r@ == self.spec_id(),
    {
        match self {
            NodeKind::Group(e) => e.id.as_str(),
            NodeKind::Path(e) => e.id.as_str(),
            NodeKind::Image(e) => e.id.as_str(),
        }
    }

    /// Returns node's transform.
    pub fn transform(&self) -> (r: Transform)
        ensures
            r == self.spec_transform(),
    {
        match self {
            NodeKind::Group(e) => e.transform,
            NodeKind::Path(e) => e.transform,
            NodeKind::Image(e) => e.transform,
        }
    }
}

/// A resolved clip-path resource.
///
/// The child subtree whose coverage defines the clip region hangs off
/// the detached node `root`; `clip_path` optionally links the next
/// clip path of a chain by id.
#[derive(Clone, PartialEq, Debug)]
pub struct ClipPath {
    /// Resource id.
    pub id: String,
    /// Coordinate space of the clip contents.
    pub units: Units,
    /// Clip path transform.
    pub transform: Transform,
    /// Id of a linked clip path, if this one chains to another.
    pub clip_path: Option<String>,
    /// Arena index of the subtree holding the clip contents.
    pub root: usize,
}

/// One arena slot: a payload plus the structural links.
#[derive(Clone, PartialEq, Debug)]
pub struct NodeData {
    /// The node's payload.
    pub kind: NodeKind,
    /// Non-owning link to the parent slot.
    pub parent: Option<usize>,
    /// Owned children, in structural order.
    pub children: Vec<usize>,
}

/// A nodes tree container.
///
/// Owns the whole node graph: the render tree under the root node at
/// index 0 (always a group), and the subtrees of resolved clip-path
/// resources, registered by id in `clip_paths`.
#[derive(Clone, PartialEq, Debug)]
pub struct Tree {
    /// Size of the image that fits the document.
    pub size: ScreenSize,
    /// The document view box.
    pub view_box: ViewBox,
    /// The node arena; slot 0 is the root. Mutate only through the
    /// tree's own operations, which keep [`Tree::wf`].
    pub nodes: Vec<NodeData>,
    /// The registered clip-path resources.
    pub clip_paths: Vec<ClipPath>,
}

impl Tree {
    /// Number of arena slots (attached or not).
    pub open spec fn len(&self) -> int {
        self.nodes@.len() as int
    }

    /// Payload of slot `i`.
    pub open spec fn kind_of(&self, i: int) -> NodeKind {
        self.nodes@[i].kind
    }

    /// Parent link of slot `i`.
    pub open spec fn parent_of(&self, i: int) -> Option<usize> {
        self.nodes@[i].parent
    }

    /// Children list of slot `i`.
    pub open spec fn children_of(&self, i: int) -> Seq<usize> {
        self.nodes@[i].children@
    }

    /// The registered clip-path resources.
    pub open spec fn spec_clip_paths(&self) -> Seq<ClipPath> {
        self.clip_paths@
    }

    /// Slot `i` is an image node.
    pub open spec fn is_image(&self, i: int) -> bool {
        self.kind_of(i) is Image
    }

    /// The children of `i` are distinct later slots that point back to `i`.
    pub open spec fn wf_children(&self, i: int) -> bool {
        let cs = self.children_of(i);
        &&& forall|k: int|
            0 <= k < cs.len() ==> i < (#[trigger] cs[k]) as int && ((cs[k] as int) < self.len())
                && self.parent_of(cs[k] as int) == Some(i as usize)
        &&& forall|k1: int, k2: int| 0 <= k1 < k2 < cs.len() ==> cs[k1] != cs[k2]
    }

    /// The parent of `i`, when there is one, is an earlier slot that
    /// lists `i` among its children.
    pub open spec fn wf_parent(&self, i: int) -> bool {
        match self.parent_of(i) {
            Some(p) => ((p as int) < i) && self.children_of(p as int).contains(i as usize),
            None => true,
        }
    }

    /// Both structural conditions for slot `i`.
    pub open spec fn wf_node(&self, i: int) -> bool {
        self.wf_children(i) && self.wf_parent(i)
    }

    /// The clip-path resource `k` hangs off a detached group node.
    pub open spec fn wf_clip(&self, k: int) -> bool {
        let cp = self.spec_clip_paths()[k];
        &&& 0 < cp.root as int && ((cp.root as int) < self.len())
        &&& self.kind_of(cp.root as int) is Group
        &&& self.parent_of(cp.root as int) is None
    }

    /// Structural well-formedness of the whole tree.
    pub open spec fn wf(&self) -> bool {
        &&& 1 <= self.len()
        &&& self.len() <= usize::MAX
        &&& self.parent_of(0) is None
        &&& self.kind_of(0) is Group
        &&& forall|i: int| 0 <= i < self.len() ==> #[trigger] self.wf_node(i)
        &&& forall|k: int| 0 <= k < self.spec_clip_paths().len() ==> #[trigger] self.wf_clip(k)
    }

    /// Creates a tree of the given size and view box, holding a single
    /// root group.
    pub fn new(size: ScreenSize, view_box: ViewBox) -> (r: Tree)
        ensures
            r.wf(),
            r.len() == 1,
            r.kind_of(0) is Group,
            r.children_of(0).len() == 0,
            r.spec_clip_paths().len() == 0,
            r.size == size,
            r.view_box == view_box,
    {
        let root = NodeData { kind: NodeKind::Group(Group::default()), parent: None, children: Vec::new() };
        let mut nodes: Vec<NodeData> = Vec::new();
        nodes.push(root);
        Tree { size, view_box, nodes, clip_paths: Vec::new() }
    }

    /// Number of nodes, as a runtime value.
    pub fn node_count(&self) -> (r: usize)
        ensures
            r as int == self.len(),
    {
        self.nodes.len()
    }

    /// The payload of a node, by reference.
    pub fn node_kind(&self, node: usize) -> (r: &NodeKind)
        requires
            (node as int) < self.len(),
        ensures
            *r == self.kind_of(node as int),
    {
        &self.nodes[node].kind
    }

    /// The local transform of a node.
    pub fn node_transform(&self, node: usize) -> (r: Transform)
        requires
            (node as int) < self.len(),
        ensures
            r == self.kind_of(node as int).spec_transform(),
    {
        self.nodes[node].kind.transform()
    }

    /// The children of a node, in structural order.
    pub fn children(&self, node: usize) -> (r: Vec<usize>)
        requires
            (node as int) < self.len(),
        ensures
            r@ == self.children_of(node as int),
    {
        self.nodes[node].children.clone()
    }

    /// Whether a node has at least one child.
    pub fn has_children(&self, node: usize) -> (r: bool)
        requires
            (node as int) < self.len(),
        ensures
            r == (self.children_of(node as int).len() > 0),
    {
        self.nodes[node].children.len() > 0
    }

    /// Appends a new node holding `kind` as the last child of `parent`
    /// and returns its index.
    pub fn append_kind(&mut self, parent: usize, kind: NodeKind) -> (r: usize)
        requires
            old(self).wf(),
            (parent as int) < old(self).len(),
            old(self).len() < usize::MAX,
        ensures
            final(self).wf(),
            r as int == old(self).len(),
            final(self).len() == old(self).len() + 1,
            final(self).kind_of(r as int) == kind,
            final(self).parent_of(r as int) == Some(parent),
            final(self).children_of(r as int).len() == 0,
            final(self).children_of(parent as int) == old(self).children_of(
                parent as int,
            ).push(r),
            forall|i: int|
                0 <= i < old(self).len() ==> final(self).kind_of(i) == old(self).kind_of(i)
                    && final(self).parent_of(i) == old(self).parent_of(i),
            forall|i: int|
                0 <= i < old(self).len() && i != parent ==> final(self).children_of(i) == old(self).children_of(i),
            final(self).spec_clip_paths() == old(self).spec_clip_paths(),
            final(self).size == old(self).size,
            final(self).view_box == old(self).view_box,
    {
        let r = self.nodes.len();
        self.nodes.push(NodeData { kind, parent: Some(parent), children: Vec::new() });
        let slot = &mut self.nodes[parent];
        slot.children.push(r);
        proof {
            let t1 = *self;
            let t0 = *old(self);
            assert forall|i: int| 0 <= i < t1.len() implies #[trigger] t1.wf_node(i) by {
                if i == r as int {
                    assert(t1.wf_children(i));
                    assert(t1.wf_parent(i)) by {
                        assert(t1.children_of(parent as int).last() == r);
                        assert(t1.children_of(parent as int).contains(r));
                    }
                } else {
                    assert(t0.wf_node(i));
                    if i == parent as int {
                        let cs0 = t0.children_of(i);
                        let cs1 = t1.children_of(i);
                        assert(cs1 == cs0.push(r));
                        assert forall|k: int|
                            0 <= k < cs1.len() implies i < (#[trigger] cs1[k]) as int
                            && ((cs1[k] as int) < t1.len()) && t1.parent_of(cs1[k] as int) == Some(
                            i as usize,
                        ) by {
                            if k < cs0.len() {
                                assert(cs1[k] == cs0[k]);
                            } else {
                                assert(cs1[k] == r);
                            }
                        }
                        assert forall|k1: int, k2: int|
                            0 <= k1 < k2 < cs1.len() implies cs1[k1] != cs1[k2] by {
                            if k2 < cs0.len() {
                            } else {
                                assert(cs1[k2] == r);
                                assert((cs1[k1] as int) < t0.len());
                            }
                        }
                        assert(t1.wf_parent(i)) by {
                            match t0.parent_of(i) {
                                Some(p) => {
                                    assert(t0.children_of(p as int).contains(i as usize));
                                    assert(p as int != parent as int || t1.children_of(
                                        p as int,
                                    ).contains(i as usize));
                                    if p as int == parent as int {
                                        let cs0p = t0.children_of(p as int);
                                        let j = choose|j: int|
                                            0 <= j < cs0p.len() && cs0p[j] == i as usize;
                                        assert(t1.children_of(p as int)[j] == i as usize);
                                    }
                                },
                                None => {},
                            }
                        }
                    } else {
                        assert(t1.children_of(i) == t0.children_of(i));
                        assert(t1.wf_children(i)) by {
                            let cs = t1.children_of(i);
                            assert forall|k: int|
                                0 <= k < cs.len() implies i < (#[trigger] cs[k]) as int
                                && ((cs[k] as int) < t1.len()) && t1.parent_of(cs[k] as int) == Some(
                                i as usize,
                            ) by {
                                assert(t0.parent_of(cs[k] as int) == Some(i as usize));
                            }
                        }
                        assert(t1.wf_parent(i)) by {
                            match t0.parent_of(i) {
                                Some(p) => {
                                    if p as int == parent as int {
                                        let cs0p = t0.children_of(p as int);
                                        let j = choose|j: int|
                                            0 <= j < cs0p.len() && cs0p[j] == i as usize;
                                        assert(t1.children_of(p as int)[j] == i as usize);
                                    } else {
                                        assert(t1.children_of(p as int) == t0.children_of(
                                            p as int,
                                        ));
                                    }
                                },
                                None => {},
                            }
                        }
                    }
                }
            }
            assert forall|k: int|
                0 <= k < t1.spec_clip_paths().len() implies #[trigger] t1.wf_clip(k) by {
                assert(t0.wf_clip(k));
            }
        }
        r
    }

    /// Appends a new detached group node (the root of a clip-path
    /// subtree) and returns its index.
    pub fn append_detached_group(&mut self) -> (r: usize)
        requires
            old(self).wf(),
            old(self).len() < usize::MAX,
        ensures
            final(self).wf(),
            r as int == old(self).len(),
            final(self).len() == old(self).len() + 1,
            final(self).kind_of(r as int) is Group,
            final(self).kind_of(r as int).spec_id().len() == 0,
            final(self).parent_of(r as int) is None,
            final(self).children_of(r as int).len() == 0,
            forall|i: int|
                0 <= i < old(self).len() ==> final(self).kind_of(i) == old(self).kind_of(i)
                    && final(self).parent_of(i) == old(self).parent_of(i) && final(self).children_of(i) == old(self).children_of(i),
            final(self).spec_clip_paths() == old(self).spec_clip_paths(),
            final(self).size == old(self).size,
            final(self).view_box == old(self).view_box,
    {
        let r = self.nodes.len();
        self.nodes.push(
            NodeData {
                kind: NodeKind::Group(Group::default()),
                parent: None,
                children: Vec::new(),
            },
        );
        proof {
            let t1 = *self;
            let t0 = *old(self);
            assert forall|i: int| 0 <= i < t1.len() implies #[trigger] t1.wf_node(i) by {
                if i == r as int {
                } else {
                    assert(t0.wf_node(i));
                    assert(t1.children_of(i) == t0.children_of(i));
                    assert(t1.wf_children(i)) by {
                        let cs = t1.children_of(i);
                        assert forall|k: int|
                            0 <= k < cs.len() implies i < (#[trigger] cs[k]) as int
                            && ((cs[k] as int) < t1.len()) && t1.parent_of(cs[k] as int) == Some(
                            i as usize,
                        ) by {
                            assert(t0.parent_of(cs[k] as int) == Some(i as usize));
                        }
                    }
                    assert(t1.wf_parent(i)) by {
                        match t0.parent_of(i) {
                            Some(p) => {
                                assert(t1.children_of(p as int) == t0.children_of(p as int));
                            },
                            None => {},
                        }
                    }
                }
            }
            assert forall|k: int|
                0 <= k < t1.spec_clip_paths().len() implies #[trigger] t1.wf_clip(k) by {
                assert(t0.wf_clip(k));
            }
        }
        r
    }
}

impl Tree {
    /// The pre-order traversal sequence of the subtree rooted at `i`:
    /// the node itself, followed by each child's subtree in order.
    pub open spec fn preorder(&self, i: usize) -> Seq<usize>
        decreases self.len() - i, 1int, 0int,
            when self.wf() && (i as int) < self.len()
            via Self::preorder_decreases
    {
        seq![i] + self.preorder_children(i, 0)
    }

    /// Concatenated pre-order sequences of the children of `i`,
    /// starting at child position `k`.
    pub open spec fn preorder_children(&self, i: usize, k: int) -> Seq<usize>
        decreases self.len() - i, 0int, self.children_of(i as int).len() - k,
            when self.wf() && (i as int) < self.len() && 0 <= k
            via Self::preorder_children_decreases
    {
        if k >= self.children_of(i as int).len() {
            Seq::empty()
        } else {
            self.preorder(self.children_of(i as int)[k]) + self.preorder_children(i, k + 1)
        }
    }

    #[via_fn]
    proof fn preorder_decreases(&self, i: usize) {
        assert(self.wf_node(i as int));
    }

    #[via_fn]
    proof fn preorder_children_decreases(&self, i: usize, k: int) {
        assert(self.wf_node(i as int));
    }

    /// A node is reachable when the pre-order walk from the root
    /// visits it.
    pub open spec fn reachable(&self, i: usize) -> bool {
        self.preorder(0).contains(i)
    }

    /// Some reachable node is an image.
    pub open spec fn has_reachable_image(&self) -> bool {
        exists|j: usize| self.reachable(j) && self.is_image(j as int)
    }

    /// Pre-order facts: the walk starts at its root and stays inside
    /// the slots at or after it.
    pub proof fn lemma_preorder_facts(&self, i: usize)
        requires
            self.wf(),
            (i as int) < self.len(),
        ensures
            self.preorder(i).len() >= 1,
            self.preorder(i)[0] == i,
            self.preorder(i).contains(i),
            forall|j: usize|
                self.preorder(i).contains(j) ==> i <= j && ((j as int) < self.len()),
        decreases self.len() - i, 1int, 0int,
    {
        broadcast use vstd::seq_lib::group_seq_properties;

        self.lemma_preorder_children_facts(i, 0);
        assert(self.preorder(i) == seq![i] + self.preorder_children(i, 0));
        assert(self.preorder(i)[0] == i);
        assert forall|j: usize|
            self.preorder(i).contains(j) implies i <= j && ((j as int) < self.len()) by {
            let s = self.preorder(i);
            let idx = choose|idx: int| 0 <= idx < s.len() && s[idx] == j;
            if idx == 0 {
            } else {
                assert(s[idx] == self.preorder_children(i, 0)[idx - 1]);
                assert(self.preorder_children(i, 0).contains(j));
            }
        }
    }

    /// Pre-order facts for a child suffix: all visited slots lie
    /// strictly after `i`.
    pub proof fn lemma_preorder_children_facts(&self, i: usize, k: int)
        requires
            self.wf(),
            (i as int) < self.len(),
            0 <= k,
        ensures
            forall|j: usize|
                self.preorder_children(i, k).contains(j) ==> i < j && ((j as int) < self.len()),
        decreases self.len() - i, 0int, self.children_of(i as int).len() - k,
    {
        broadcast use vstd::seq_lib::group_seq_properties;

        let cs = self.children_of(i as int);
        if k >= cs.len() {
        } else {
            assert(self.wf_node(i as int));
            let c = cs[k];
            assert((c as int) < self.len());
            self.lemma_preorder_facts(c);
            self.lemma_preorder_children_facts(i, k + 1);
            assert forall|j: usize|
                self.preorder_children(i, k).contains(j) implies i < j && ((j as int)
                < self.len()) by {
                let s = self.preorder_children(i, k);
                let a = self.preorder(c);
                let b = self.preorder_children(i, k + 1);
                assert(s == a + b);
                let idx = choose|idx: int| 0 <= idx < s.len() && s[idx] == j;
                if idx < a.len() {
                    assert(a[idx] == s[idx]);
                    assert(a.contains(j));
                } else {
                    assert(s[idx] == b[idx - a.len()]);
                    assert(b.contains(j));
                }
            }
        }
    }

    /// A member of a child-suffix walk lies in the walk of one of the
    /// children of that suffix.
    pub proof fn lemma_preorder_children_member(&self, i: usize, k: int, j: usize)
        requires
            self.wf(),
            (i as int) < self.len(),
            0 <= k,
            self.preorder_children(i, k).contains(j),
        ensures
            exists|kk: int|
                k <= kk < self.children_of(i as int).len() && #[trigger] self.preorder(
                    self.children_of(i as int)[kk],
                ).contains(j),
        decreases self.children_of(i as int).len() - k,
    {
        broadcast use vstd::seq_lib::group_seq_properties;

        let cs = self.children_of(i as int);
        let s = self.preorder_children(i, k);
        if k >= cs.len() {
            assert(s == Seq::<usize>::empty());
        } else {
            assert(self.wf_node(i as int));
            let a = self.preorder(cs[k]);
            let b = self.preorder_children(i, k + 1);
            assert(s == a + b);
            let idx = choose|idx: int| 0 <= idx < s.len() && s[idx] == j;
            if idx < a.len() {
                assert(a[idx] == s[idx]);
                assert(a.contains(j));
            } else {
                assert(s[idx] == b[idx - a.len()]);
                assert(b.contains(j));
                self.lemma_preorder_children_member(i, k + 1, j);
            }
        }
    }

    /// Every child of a node on the walk from `root` is itself on the
    /// walk from `root`.
    pub proof fn lemma_preorder_contains_child(&self, root: usize, i: usize, c: usize)
        requires
            self.wf(),
            (root as int) < self.len(),
            self.preorder(root).contains(i),
            self.children_of(i as int).contains(c),
        ensures
            self.preorder(root).contains(c),
        decreases self.len() - root,
    {
        broadcast use vstd::seq_lib::group_seq_properties;

        self.lemma_preorder_facts(root);
        assert(self.wf_node(root as int));
        let cs = self.children_of(root as int);
        let s = self.preorder(root);
        assert(s == seq![root] + self.preorder_children(root, 0));
        if i == root {
            let k = choose|k: int| 0 <= k < cs.len() && cs[k] == c;
            self.lemma_child_walk_in_suffix(root, 0, k);
            assert((c as int) < self.len());
            self.lemma_preorder_facts(c);
            assert(self.preorder(c).contains(c));
            assert(self.preorder_children(root, 0).contains(c));
            let m = choose|m: int|
                0 <= m < self.preorder_children(root, 0).len() && self.preorder_children(
                    root,
                    0,
                )[m] == c;
            assert(s[1 + m] == c);
        } else {
            let idx = choose|idx: int| 0 <= idx < s.len() && s[idx] == i;
            assert(idx != 0);
            assert(s[idx] == self.preorder_children(root, 0)[idx - 1]);
            assert(self.preorder_children(root, 0).contains(i));
            self.lemma_preorder_children_member(root, 0, i);
            let kk = choose|kk: int|
                0 <= kk < cs.len() && #[trigger] self.preorder(cs[kk]).contains(i);
            assert((cs[kk] as int) < self.len());
            self.lemma_preorder_contains_child(cs[kk], i, c);
            self.lemma_child_walk_in_suffix(root, 0, kk);
            assert(self.preorder_children(root, 0).contains(c));
            let m = choose|m: int|
                0 <= m < self.preorder_children(root, 0).len() && self.preorder_children(
                    root,
                    0,
                )[m] == c;
            assert(s[1 + m] == c);
        }
    }

    /// Whatever a child's walk contains, the walk of any child suffix
    /// up to that child contains too.
    pub proof fn lemma_child_walk_in_suffix(&self, i: usize, k: int, kk: int)
        requires
            self.wf(),
            (i as int) < self.len(),
            0 <= k <= kk < self.children_of(i as int).len(),
        ensures
            forall|j: usize|
                self.preorder(self.children_of(i as int)[kk]).contains(j)
                    ==> #[trigger] self.preorder_children(i, k).contains(j),
        decreases kk - k,
    {
        broadcast use vstd::seq_lib::group_seq_properties;

        let cs = self.children_of(i as int);
        let s = self.preorder_children(i, k);
        assert(self.wf_node(i as int));
        let a = self.preorder(cs[k]);
        let b = self.preorder_children(i, k + 1);
        assert(s == a + b);
        if kk == k {
            assert forall|j: usize| a.contains(j) implies #[trigger] s.contains(j) by {
                let idx = choose|idx: int| 0 <= idx < a.len() && a[idx] == j;
                assert(s[idx] == j);
            }
        } else {
            self.lemma_child_walk_in_suffix(i, k + 1, kk);
            assert forall|j: usize|
                self.preorder(cs[kk]).contains(j) implies #[trigger] s.contains(j) by {
                assert(b.contains(j));
                let idx = choose|idx: int| 0 <= idx < b.len() && b[idx] == j;
                assert(s[a.len() + idx] == j);
            }
        }
    }

    /// Collects the pre-order walk of the subtree at `node` into `out`.
    fn preorder_collect(&self, node: usize, out: &mut Vec<usize>)
        requires
            self.wf(),
            (node as int) < self.len(),
        ensures
            final(out)@ == old(out)@ + self.preorder(node),
        decreases self.len() - node,
    {
        broadcast use vstd::seq_lib::group_seq_properties;

        out.push(node);
        let ghost mid = out@;
        let n = self.nodes[node].children.len();
        let mut k: usize = 0;
        while k < n
            invariant
                self.wf(),
                (node as int) < self.len(),
                n == self.children_of(node as int).len(),
                0 <= k <= n,
                mid == old(out)@ + seq![node],
                out@ + self.preorder_children(node, k as int) == mid + self.preorder_children(
                    node,
                    0,
                ),
            decreases n - k,
        {
            assert(self.wf_node(node as int));
            let c = self.nodes[node].children[k];
            assert(self.preorder_children(node, k as int) == self.preorder(c)
                + self.preorder_children(node, k as int + 1));
            self.preorder_collect(c, out);
            k = k + 1;
        }
        assert(self.preorder_children(node, n as int) == Seq::<usize>::empty());
        assert(out@ == mid + self.preorder_children(node, 0));
        assert(mid + self.preorder_children(node, 0) == old(out)@ + self.preorder(node));
    }

    /// The pre-order walk of the subtree at `node`, the node first.
    pub fn descendants(&self, node: usize) -> (r: Vec<usize>)
        requires
            self.wf(),
            (node as int) < self.len(),
        ensures
            r@ == self.preorder(node),
    {
        let mut out: Vec<usize> = Vec::new();
        self.preorder_collect(node, &mut out);
        out
    }

    /// The chain from a node up to its root, nearest first: the node
    /// itself, then its parent, and so on.
    pub open spec fn ancestors_seq(&self, i: usize) -> Seq<usize>
        decreases i,
            when self.wf() && (i as int) < self.len()
            via Self::ancestors_seq_decreases
    {
        match self.parent_of(i as int) {
            Some(p) => seq![i] + self.ancestors_seq(p),
            None => seq![i],
        }
    }

    #[via_fn]
    proof fn ancestors_seq_decreases(&self, i: usize) {
        assert(self.wf_node(i as int));
    }

    /// Collects the ancestor chain of `node` into `out`, nearest first.
    fn ancestors_collect(&self, node: usize, out: &mut Vec<usize>)
        requires
            self.wf(),
            (node as int) < self.len(),
        ensures
            final(out)@ == old(out)@ + self.ancestors_seq(node),
        decreases node,
    {
        out.push(node);
        proof {
            assert(self.wf_node(node as int));
            assert(out@ =~= old(out)@ + seq![node]);
        }
        let ghost mid = out@;
        match self.nodes[node].parent {
            Some(p) => {
                self.ancestors_collect(p, out);
                proof {
                    assert(out@ == mid + self.ancestors_seq(p));
                    assert(out@ =~= old(out)@ + (seq![node] + self.ancestors_seq(p)));
                    assert(self.ancestors_seq(node) == seq![node] + self.ancestors_seq(p));
                }
            },
            None => {
                proof {
                    assert(self.ancestors_seq(node) == seq![node]);
                }
            },
        }
    }

    /// The ancestor chain of `node`, nearest first, the node itself
    /// included.
    pub fn ancestors(&self, node: usize) -> (r: Vec<usize>)
        requires
            self.wf(),
            (node as int) < self.len(),
        ensures
            r@ == self.ancestors_seq(node),
    {
        let mut out: Vec<usize> = Vec::new();
        self.ancestors_collect(node, &mut out);
        proof {
            assert(out@ =~= self.ancestors_seq(node));
        }
        out
    }
    /// Total number of parent-to-child links among the first `n` slots.
    pub open spec fn links_up_to(&self, n: int) -> int
        decreases n,
    {
        if n <= 0 {
            0
        } else {
            self.links_up_to(n - 1) + self.children_of(n - 1).len()
        }
    }

    /// Total number of parent-to-child links in the arena.
    pub open spec fn total_links(&self) -> int {
        self.links_up_to(self.len())
    }

    /// Link counts are never negative.
    pub proof fn lemma_links_nonneg(&self, n: int)
        ensures
            self.links_up_to(n) >= 0,
        decreases n,
    {
        if n > 0 {
            self.lemma_links_nonneg(n - 1);
        }
    }

    /// Every node on a walk, other than the walk's root, has a parent.
    pub proof fn lemma_reachable_parent(&self, root: usize, j: usize)
        requires
            self.wf(),
            (root as int) < self.len(),
            self.preorder(root).contains(j),
            j != root,
        ensures
            self.parent_of(j as int) is Some,
            ((j as int) < self.len()),
        decreases self.len() - root,
    {
        broadcast use vstd::seq_lib::group_seq_properties;

        self.lemma_preorder_facts(root);
        assert(self.wf_node(root as int));
        let s = self.preorder(root);
        assert(s == seq![root] + self.preorder_children(root, 0));
        let idx = choose|idx: int| 0 <= idx < s.len() && s[idx] == j;
        assert(idx != 0);
        assert(s[idx] == self.preorder_children(root, 0)[idx - 1]);
        assert(self.preorder_children(root, 0).contains(j));
        self.lemma_preorder_children_member(root, 0, j);
        let cs = self.children_of(root as int);
        let kk = choose|kk: int|
            0 <= kk < cs.len() && #[trigger] self.preorder(cs[kk]).contains(j);
        if cs[kk] == j {
            assert(self.parent_of(j as int) == Some(root));
        } else {
            self.lemma_reachable_parent(cs[kk], j);
        }
    }

    /// Removes `node` (and so its whole subtree) from its parent.
    /// A node without a parent is left as it is.
    pub fn detach(&mut self, node: usize)
        requires
            old(self).wf(),
            (node as int) < old(self).len(),
            node != 0,
        ensures
            final(self).wf(),
            final(self).len() == old(self).len(),
            forall|i: int|
                0 <= i < old(self).len() ==> final(self).kind_of(i) == old(self).kind_of(i),
            final(self).spec_clip_paths() == old(self).spec_clip_paths(),
            final(self).size == old(self).size,
            final(self).view_box == old(self).view_box,
            match old(self).parent_of(node as int) {
                None => *final(self) == *old(self),
                Some(p) => {
                    &&& final(self).parent_of(node as int) is None
                    &&& forall|i: int|
                        0 <= i < old(self).len() && i != node ==> final(self).parent_of(i) == old(
                            self,
                        ).parent_of(i)
                    &&& final(self).children_of(p as int) == old(self).children_of(
                        p as int,
                    ).remove_value(node)
                    &&& final(self).children_of(p as int).len() + 1 == old(self).children_of(
                        p as int,
                    ).len()
                    &&& forall|i: int|
                        0 <= i < old(self).len() && i != p ==> final(self).children_of(i) == old(
                            self,
                        ).children_of(i)
                    &&& final(self).total_links() < old(self).total_links()
                },
            },
    {
        broadcast use vstd::seq_lib::group_seq_properties;

        let parent_opt = self.nodes[node].parent;
        match parent_opt {
            None => {},
            Some(p) => {
                proof {
                    assert(old(self).wf_node(node as int));
                }
                let n = self.nodes[p].children.len();
                let mut idx: usize = 0;
                while idx < n && self.nodes[p].children[idx] != node
                    invariant
                        self == old(self),
                        old(self).wf(),
                        (p as int) < old(self).len(),
                        n == old(self).children_of(p as int).len(),
                        0 <= idx <= n,
                        old(self).children_of(p as int).contains(node),
                        forall|j: int|
                            0 <= j < idx ==> old(self).children_of(p as int)[j] != node,
                    decreases n - idx,
                {
                    idx = idx + 1;
                }
                proof {
                    if idx == n {
                        let w = choose|w: int|
                            0 <= w < old(self).children_of(p as int).len() && old(
                                self,
                            ).children_of(p as int)[w] == node;
                        assert(false);
                    }
                    assert(old(self).children_of(p as int)[idx as int] == node);
                }
                let slot = &mut self.nodes[p];
                slot.children.remove(idx);
                let slot2 = &mut self.nodes[node];
                slot2.parent = None;
                proof {
                    let t1 = *self;
                    let t0 = *old(self);
                    let cs0 = t0.children_of(p as int);
                    let cs1 = t1.children_of(p as int);
                    assert(cs1 == cs0.remove(idx as int));
                    assert(t0.wf_node(p as int));
                    // the removed position held the only occurrence of `node`
                    assert(cs0.remove_value(node) == cs0.remove(cs0.index_of_first(
                        node,
                    ).unwrap())) by {
                        cs0.index_of_first_ensures(node);
                    }
                    assert(cs0.index_of_first(node) matches Some(fi) && fi == idx as int) by {
                        cs0.index_of_first_ensures(node);
                        let fi = cs0.index_of_first(node).unwrap();
                        assert(cs0[fi] == node);
                        assert(cs0[idx as int] == node);
                        if fi < idx as int {
                            assert(cs0[fi] != node);
                        }
                        if (idx as int) < fi {
                        }
                    }
                    assert(cs1 == cs0.remove_value(node));
                    assert forall|i: int| 0 <= i < t1.len() implies #[trigger] t1.wf_node(i) by {
                        assert(t0.wf_node(i));
                        if i == p as int {
                            assert forall|k: int|
                                0 <= k < cs1.len() implies i < (#[trigger] cs1[k]) as int && ((
                                cs1[k] as int) < t1.len()) && t1.parent_of(cs1[k] as int) == Some(
                                i as usize,
                            ) by {
                                if k < idx as int {
                                    assert(cs1[k] == cs0[k]);
                                } else {
                                    assert(cs1[k] == cs0[k + 1]);
                                }
                                assert(cs0.contains(cs1[k]));
                                assert(cs1[k] != node);
                            }
                            assert forall|k1: int, k2: int|
                                0 <= k1 < k2 < cs1.len() implies cs1[k1] != cs1[k2] by {
                                let m1 = if k1 < idx as int { k1 } else { k1 + 1 };
                                let m2 = if k2 < idx as int { k2 } else { k2 + 1 };
                                assert(cs1[k1] == cs0[m1]);
                                assert(cs1[k2] == cs0[m2]);
                            }
                            assert(t1.wf_parent(i)) by {
                                match t0.parent_of(i) {
                                    Some(q) => {
                                        assert(i != node as int);
                                        assert(t0.children_of(q as int).contains(i as usize));
                                        if q as int == p as int {
                                            let w = choose|w: int|
                                                0 <= w < cs0.len() && cs0[w] == i as usize;
                                            assert(i as usize != node);
                                            assert(cs0[idx as int] == node);
                                            assert(w != idx as int);
                                            let w2: int = if w < idx as int {
                                                w
                                            } else {
                                                w - 1
                                            };
                                            assert(cs1[w2] == i as usize);
                                        }
                                    },
                                    None => {},
                                }
                            }
                        } else {
                            assert(t1.children_of(i) == t0.children_of(i));
                            assert forall|k: int|
                                0 <= k < t1.children_of(i).len() implies i < (
                                #[trigger] t1.children_of(i)[k]) as int && ((t1.children_of(
                                i,
                            )[k] as int) < t1.len()) && t1.parent_of(t1.children_of(i)[k] as int)
                                == Some(i as usize) by {
                                let c = t1.children_of(i)[k];
                                assert(t0.parent_of(c as int) == Some(i as usize));
                                assert(c != node);
                            }
                            assert(t1.wf_parent(i)) by {
                                if i != node as int {
                                    match t0.parent_of(i) {
                                        Some(q) => {
                                            if q as int == p as int {
                                                let w = choose|w: int|
                                                    0 <= w < cs0.len() && cs0[w] == i as usize;
                                                assert(i as usize != node);
                                                assert(cs0[idx as int] == node);
                                                assert(w != idx as int);
                                                let w2: int = if w < idx as int {
                                                    w
                                                } else {
                                                    w - 1
                                                };
                                                assert(cs1[w2] == i as usize);
                                            } else {
                                                assert(t1.children_of(q as int)
                                                    == t0.children_of(q as int));
                                            }
                                        },
                                        None => {},
                                    }
                                }
                            }
                        }
                    }
                    assert forall|k: int|
                        0 <= k < t1.spec_clip_paths().len() implies #[trigger] t1.wf_clip(k) by {
                        assert(t0.wf_clip(k));
                        assert(t0.spec_clip_paths()[k].root != node) by {
                            if t0.spec_clip_paths()[k].root == node {
                                assert(t0.parent_of(node as int) is None);
                            }
                        }
                    }
                    Self::lemma_links_shrink(t0, t1, t0.len(), p as int);
                }
            },
        }
    }

    /// When one slot's child list shrinks and all others are
    /// unchanged, the total link count goes down.
    proof fn lemma_links_shrink(t0: Tree, t1: Tree, n: int, p: int)
        requires
            t0.len() == t1.len(),
            0 <= p < n <= t0.len(),
            forall|i: int| 0 <= i < n && i != p ==> t1.children_of(i) == t0.children_of(i),
            t1.children_of(p).len() < t0.children_of(p).len(),
        ensures
            t1.links_up_to(n) < t0.links_up_to(n),
        decreases n,
    {
        if p == n - 1 {
            Self::lemma_links_equal(t0, t1, n - 1);
        } else {
            Self::lemma_links_shrink(t0, t1, n - 1, p);
        }
    }

    /// Equal child lists below `n` give equal link counts.
    proof fn lemma_links_equal(t0: Tree, t1: Tree, n: int)
        requires
            forall|i: int| 0 <= i < n ==> t1.children_of(i) == t0.children_of(i),
        ensures
            t1.links_up_to(n) == t0.links_up_to(n),
        decreases n,
    {
        if n > 0 {
            Self::lemma_links_equal(t0, t1, n - 1);
        }
    }

    /// Left fold of transform composition over a chain, outermost
    /// transform first, starting from the identity.
    pub open spec fn compose_chain(ts: Seq<Transform>) -> Option<Transform>
        decreases ts.len(),
    {
        if ts.len() == 0 {
            Some(Transform { a: 1, b: 0, c: 0, d: 1, e: 0, f: 0 })
        } else {
            match Self::compose_chain(ts.drop_last()) {
                Some(acc) => acc.append_spec(ts.last()),
                None => None,
            }
        }
    }

    /// Once a prefix of the chain fails to compose, the whole chain
    /// fails.
    pub proof fn lemma_compose_chain_none(ts: Seq<Transform>, k: int)
        requires
            0 <= k <= ts.len(),
            Self::compose_chain(ts.take(k)) is None,
        ensures
            Self::compose_chain(ts) is None,
        decreases ts.len() - k,
    {
        if k == ts.len() {
            assert(ts.take(k) =~= ts);
        } else {
            assert(ts.take(k + 1).drop_last() =~= ts.take(k));
            assert(ts.take(k + 1).last() == ts[k]);
            Self::lemma_compose_chain_none(ts, k + 1);
        }
    }

    /// Every slot on the ancestor chain lies inside the arena.
    pub proof fn lemma_ancestors_range(&self, i: usize)
        requires
            self.wf(),
            (i as int) < self.len(),
        ensures
            self.ancestors_seq(i).len() >= 1,
            forall|j: int|
                0 <= j < self.ancestors_seq(i).len() ==> ((#[trigger] self.ancestors_seq(
                    i,
                )[j] as int) < self.len()),
        decreases i,
    {
        broadcast use vstd::seq_lib::group_seq_properties;

        assert(self.wf_node(i as int));
        match self.parent_of(i as int) {
            Some(p) => {
                self.lemma_ancestors_range(p);
                let s = self.ancestors_seq(i);
                assert(s == seq![i] + self.ancestors_seq(p));
                assert forall|j: int|
                    0 <= j < s.len() implies ((#[trigger] s[j] as int) < self.len()) by {
                    if j > 0 {
                        assert(s[j] == self.ancestors_seq(p)[j - 1]);
                    }
                }
            },
            None => {},
        }
    }

    /// The local transforms of the listed nodes.
    pub open spec fn transforms_of(&self, s: Seq<usize>) -> Seq<Transform> {
        s.map(|_k: int, j: usize| self.kind_of(j as int).spec_transform())
    }

    /// What [`Tree::abs_transform`] returns: the composition of the
    /// local transforms from the root down to the node, or `None` when
    /// an intermediate product leaves the exact range.
    pub open spec fn abs_transform_spec(&self, i: usize) -> Option<Transform> {
        Self::compose_chain(self.transforms_of(self.ancestors_seq(i).reverse()))
    }

    /// Returns the node's absolute transform: its ancestors' local
    /// transforms composed root first, its own last.
    pub fn abs_transform(&self, node: usize) -> (r: Option<Transform>)
        requires
            self.wf(),
            (node as int) < self.len(),
        ensures
            r == self.abs_transform_spec(node),
    {
        let anc = self.ancestors(node);
        proof {
            self.lemma_ancestors_range(node);
        }
        let n = anc.len();
        let ghost chain = self.transforms_of(anc@.reverse());
        let mut abs = Transform::default();
        let mut k: usize = 0;
        while k < n
            invariant
                self.wf(),
                (node as int) < self.len(),
                anc@ == self.ancestors_seq(node),
                n == anc@.len(),
                chain == self.transforms_of(anc@.reverse()),
                chain.len() == n,
                forall|j: int| 0 <= j < n ==> (anc@[j] as int) < self.len(),
                0 <= k <= n,
                Some(abs) == Self::compose_chain(chain.take(k as int)),
            decreases n - k,
        {
            let j = anc[n - 1 - k];
            let t = self.nodes[j].kind.transform();
            proof {
                assert(anc@.reverse()[k as int] == anc@[n - 1 - k]);
                assert(chain[k as int] == t);
                assert(chain.take(k as int + 1).drop_last() =~= chain.take(k as int));
                assert(chain.take(k as int + 1).last() == chain[k as int]);
            }
            match abs.append(&t) {
                Some(t2) => {
                    abs = t2;
                },
                None => {
                    proof {
                        assert(Self::compose_chain(chain.take(k as int + 1)) is None);
                        Self::lemma_compose_chain_none(chain, k as int + 1);
                    }
                    return None;
                },
            }
            k = k + 1;
        }
        proof {
            assert(chain.take(n as int) =~= chain);
        }
        Some(abs)
    }

    /// The first node of the listed ones whose id reads `id`.
    pub open spec fn first_with_id(&self, s: Seq<usize>, id: Seq<char>) -> Option<usize>
        decreases s.len(),
    {
        if s.len() == 0 {
            None
        } else if self.kind_of(s[0] as int).spec_id() == id {
            Some(s[0])
        } else {
            self.first_with_id(s.drop_first(), id)
        }
    }

    /// Returns the first renderable node with the given id, walking the
    /// tree in pre-order.
    ///
    /// An empty id always gives `None`, even when nodes with an empty
    /// id exist.
    pub fn node_by_id(&self, id: &str) -> (r: Option<usize>)
        requires
            self.wf(),
        ensures
            r == if id@.len() == 0 {
                Option::<usize>::None
            } else {
                self.first_with_id(self.preorder(0), id@)
            },
    {
        broadcast use vstd::seq_lib::group_seq_properties;

        if id.is_empty() {
            return None;
        }
        proof {
            self.lemma_preorder_facts(0);
        }
        let ds = self.descendants(0);
        proof {
            assert forall|j: int| 0 <= j < ds@.len() implies ((ds@[j] as int) < self.len()) by {
                assert(self.preorder(0).contains(ds@[j]));
            }
        }
        let n = ds.len();
        let mut k: usize = 0;
        while k < n
            invariant
                self.wf(),
                id@.len() != 0,
                ds@ == self.preorder(0),
                n == ds@.len(),
                0 <= k <= n,
                forall|j: int| 0 <= j < n ==> ((ds@[j] as int) < self.len()),
                self.first_with_id(self.preorder(0), id@) == self.first_with_id(
                    ds@.skip(k as int),
                    id@,
                ),
            decreases n - k,
        {
            let node = ds[k];
            proof {
                assert(ds@.skip(k as int)[0] == ds@[k as int]);
                assert(ds@.skip(k as int).drop_first() =~= ds@.skip(k as int + 1));
            }
            if str_eq(self.nodes[node].kind.id(), id) {
                return Some(node);
            }
            k = k + 1;
        }
        proof {
            assert(ds@.skip(n as int) =~= Seq::<usize>::empty());
        }
        None
    }

    /// First registered clip path at or after position `k` whose id
    /// reads `id`.
    pub open spec fn first_clip_from(&self, k: int, id: Seq<char>) -> Option<usize>
        decreases self.spec_clip_paths().len() - k,
    {
        if k < 0 || k >= self.spec_clip_paths().len() {
            None
        } else if self.spec_clip_paths()[k].id@ == id {
            Some(k as usize)
        } else {
            self.first_clip_from(k + 1, id)
        }
    }

    /// Looks up a resolved clip-path resource by id and returns its
    /// position in the registry.
    pub fn defs_by_id(&self, id: &String) -> (r: Option<usize>)
        ensures
            r == self.first_clip_from(0, id@),
    {
        let n = self.clip_paths.len();
        let mut k: usize = 0;
        while k < n
            invariant
                n == self.spec_clip_paths().len(),
                0 <= k <= n,
                self.first_clip_from(0, id@) == self.first_clip_from(k as int, id@),
            decreases n - k,
        {
            if str_eq(self.clip_paths[k].id.as_str(), id.as_str()) {
                return Some(k);
            }
            k = k + 1;
        }
        None
    }

    /// Every registered clip path has at least one child in its
    /// subtree: no empty clip path survives resolution.
    pub open spec fn registry_complete(&self) -> bool {
        forall|k: int|
            0 <= k < self.spec_clip_paths().len() ==> self.children_of(
                (#[trigger] self.spec_clip_paths()[k]).root as int,
            ).len() > 0
    }

    /// Registers a resolved clip-path resource.
    pub fn register_clip_path(&mut self, cp: ClipPath)
        requires
            old(self).wf(),
            0 < cp.root,
            (cp.root as int) < old(self).len(),
            old(self).kind_of(cp.root as int) is Group,
            old(self).parent_of(cp.root as int) is None,
        ensures
            final(self).wf(),
            final(self).spec_clip_paths() == old(self).spec_clip_paths().push(cp),
            final(self).nodes == old(self).nodes,
            final(self).size == old(self).size,
            final(self).view_box == old(self).view_box,
    {
        self.clip_paths.push(cp);
        proof {
            let t1 = *self;
            let t0 = *old(self);
            assert forall|i: int| 0 <= i < t1.len() implies #[trigger] t1.wf_node(i) by {
                assert(t0.wf_node(i));
            }
            assert forall|k: int|
                0 <= k < t1.spec_clip_paths().len() implies #[trigger] t1.wf_clip(k) by {
                if k < t0.spec_clip_paths().len() {
                    assert(t0.wf_clip(k));
                }
            }
        }
    }

    /// Drops the most recently registered clip-path resource; its
    /// subtree stays in the arena but is no longer referenced.
    pub fn unregister_last_clip_path(&mut self)
        requires
            old(self).wf(),
            old(self).spec_clip_paths().len() > 0,
        ensures
            final(self).wf(),
            final(self).spec_clip_paths() == old(self).spec_clip_paths().drop_last(),
            final(self).nodes == old(self).nodes,
            final(self).size == old(self).size,
            final(self).view_box == old(self).view_box,
    {
        self.clip_paths.pop();
        proof {
            let t1 = *self;
            let t0 = *old(self);
            assert forall|i: int| 0 <= i < t1.len() implies #[trigger] t1.wf_node(i) by {
                assert(t0.wf_node(i));
            }
            assert forall|k: int|
                0 <= k < t1.spec_clip_paths().len() implies #[trigger] t1.wf_clip(k) by {
                assert(t0.wf_clip(k));
            }
        }
    }
}

impl Tree {
    /// The points that determine a segment's extent; for curves the
    /// control points stand in for the curve, which they enclose.
    pub open spec fn segment_points(seg: PathSegment) -> Seq<(i64, i64)> {
        match seg {
            PathSegment::MoveTo { x, y } => seq![(x, y)],
            PathSegment::LineTo { x, y } => seq![(x, y)],
            PathSegment::CurveTo { x1, y1, x2, y2, x, y } => seq![(x1, y1), (x2, y2), (x, y)],
            PathSegment::ClosePath => Seq::empty(),
        }
    }

    /// All extent points of a segment list, in order.
    pub open spec fn path_points(segs: Seq<PathSegment>) -> Seq<(i64, i64)>
        decreases segs.len(),
    {
        if segs.len() == 0 {
            Seq::empty()
        } else {
            Self::path_points(segs.drop_last()) + Self::segment_points(segs.last())
        }
    }

    /// Min/max corners of the transformed points: `None` when there is
    /// no point or one leaves the exact range.
    pub open spec fn points_bounds(t: Transform, pts: Seq<(i64, i64)>) -> Option<PathBbox>
        decreases pts.len(),
    {
        if pts.len() == 0 {
            None
        } else {
            let p = pts.last();
            match t.apply_spec(p.0, p.1) {
                None => None,
                Some(q) => {
                    let pb = PathBbox { min_x: q.0, min_y: q.1, max_x: q.0, max_y: q.1 };
                    if pts.len() == 1 {
                        Some(pb)
                    } else {
                        match Self::points_bounds(t, pts.drop_last()) {
                            None => None,
                            Some(b) => Some(crate::geom::bbox_union_spec(b, pb)),
                        }
                    }
                },
            }
        }
    }

    /// Coordinates produced by [`Tree::points_bounds`] stay within the
    /// range that single transform applications can reach.
    pub proof fn lemma_points_bounds_range(t: Transform, pts: Seq<(i64, i64)>)
        ensures
            Self::points_bounds(t, pts) matches Some(b) ==> {
                let lim = 5 * (MAX_COORD as int) * (MAX_COORD as int);
                -lim <= b.min_x <= b.max_x <= lim && -lim <= b.min_y <= b.max_y <= lim
            },
        decreases pts.len(),
    {
        if pts.len() == 0 {
        } else {
            Self::lemma_points_bounds_range(t, pts.drop_last());
            let p = pts.last();
            match t.apply_spec(p.0, p.1) {
                None => {},
                Some(q) => {
                    let g = MAX_COORD as int;
                    crate::geom::lemma_mul_bound(t@.a, p.0 as int, g, 2 * g);
                    crate::geom::lemma_mul_bound(t@.c, p.1 as int, g, 2 * g);
                    crate::geom::lemma_mul_bound(t@.b, p.0 as int, g, 2 * g);
                    crate::geom::lemma_mul_bound(t@.d, p.1 as int, g, 2 * g);
                    assert(g <= g * g) by (nonlinear_arith)
                        requires
                            g >= 1,
                    ;
                    assert(g * (2 * g) + g * (2 * g) + g <= 5 * g * g) by (nonlinear_arith)
                        requires
                            g >= 1,
                    ;
                },
            }
        }
    }

    /// The half width that a stroke adds on every side of a path's
    /// extent: half the width rounded up, clamped to the coordinate
    /// bound; a stroke without positive width adds nothing.
    pub open spec fn stroke_half_width(stroke: Option<Stroke>) -> int {
        match stroke {
            Some(s) => if 0 < s.width <= MAX_COORD {
                (s.width + 1) / 2
            } else if s.width > MAX_COORD {
                (MAX_COORD + 1) / 2
            } else {
                0
            },
            None => 0,
        }
    }

    /// Widens raw bounds by the stroke half width and keeps the result
    /// only when it has a nonzero extent.
    pub open spec fn finish_bbox(b: Option<PathBbox>, hw: int) -> Option<PathBbox> {
        match b {
            None => None,
            Some(bb) => {
                let w = PathBbox {
                    min_x: (bb.min_x - hw) as i64,
                    min_y: (bb.min_y - hw) as i64,
                    max_x: (bb.max_x + hw) as i64,
                    max_y: (bb.max_y + hw) as i64,
                };
                if w.valid() {
                    Some(w)
                } else {
                    None
                }
            },
        }
    }

    /// The four corners of a rectangle, in drawing order.
    pub open spec fn image_corner_points(rect: Rect) -> Seq<(i64, i64)> {
        seq![
            (rect.x, rect.y),
            ((rect.x + rect.width) as i64, rect.y),
            ((rect.x + rect.width) as i64, (rect.y + rect.height) as i64),
            (rect.x, (rect.y + rect.height) as i64),
        ]
    }

    /// Smallest box around two optional boxes.
    pub open spec fn merge_bbox(a: Option<PathBbox>, b: Option<PathBbox>) -> Option<PathBbox> {
        match a {
            None => b,
            Some(ab) => match b {
                None => Some(ab),
                Some(bb) => Some(crate::geom::bbox_union_spec(ab, bb)),
            },
        }
    }

    /// The bounding box of the node at `i` under the accumulated
    /// transform `ts`: the widened extent of a path's segment data, the
    /// transformed view rectangle of an image, and for a group the
    /// union over its children, each with its own transform composed
    /// onto `ts`. A group without a contributing descendant has none.
    pub open spec fn node_bbox_spec(&self, i: usize, ts: Transform) -> Option<PathBbox>
        decreases self.len() - i, 1int, 0int,
            when self.wf() && (i as int) < self.len()
            via Self::node_bbox_spec_decreases
    {
        match self.kind_of(i as int) {
            NodeKind::Path(p) => Self::finish_bbox(
                Self::points_bounds(ts, Self::path_points(p.data.0@)),
                Self::stroke_half_width(p.stroke),
            ),
            NodeKind::Image(img) => if img.view_box.rect.bounded() {
                Self::finish_bbox(
                    Self::points_bounds(ts, Self::image_corner_points(img.view_box.rect)),
                    0,
                )
            } else {
                None
            },
            NodeKind::Group(_) => self.group_bbox(i, self.children_of(i as int).len() as int, ts),
        }
    }

    #[via_fn]
    proof fn node_bbox_spec_decreases(&self, i: usize, ts: Transform) {
        assert(self.wf_node(i as int));
    }

    /// The union of the bounding boxes of the first `k` children of
    /// the group at `i`.
    pub open spec fn group_bbox(&self, i: usize, k: int, ts: Transform) -> Option<PathBbox>
        decreases self.len() - i, 0int, k,
            when self.wf() && (i as int) < self.len() && k <= self.children_of(i as int).len()
            via Self::group_bbox_decreases
    {
        if k <= 0 {
            None
        } else {
            let prev = self.group_bbox(i, k - 1, ts);
            let c = self.children_of(i as int)[k - 1];
            let cb = match ts.append_spec(self.kind_of(c as int).spec_transform()) {
                Some(cts) => self.node_bbox_spec(c, cts),
                None => None,
            };
            Self::merge_bbox(prev, cb)
        }
    }

    #[via_fn]
    proof fn group_bbox_decreases(&self, i: usize, k: int, ts: Transform) {
        assert(self.wf_node(i as int));
    }

    /// Exec counterpart of [`Tree::path_points`].
    fn collect_path_points(segs: &Vec<PathSegment>) -> (r: Vec<(i64, i64)>)
        ensures
            r@ == Self::path_points(segs@),
    {
        broadcast use vstd::seq_lib::group_seq_properties;

        let mut out: Vec<(i64, i64)> = Vec::new();
        let n = segs.len();
        let mut k: usize = 0;
        while k < n
            invariant
                n == segs@.len(),
                0 <= k <= n,
                out@ == Self::path_points(segs@.take(k as int)),
            decreases n - k,
        {
            proof {
                assert(segs@.take(k as int + 1).drop_last() =~= segs@.take(k as int));
                assert(segs@.take(k as int + 1).last() == segs@[k as int]);
            }
            match segs[k] {
                PathSegment::MoveTo { x, y } => {
                    out.push((x, y));
                },
                PathSegment::LineTo { x, y } => {
                    out.push((x, y));
                },
                PathSegment::CurveTo { x1, y1, x2, y2, x, y } => {
                    out.push((x1, y1));
                    out.push((x2, y2));
                    out.push((x, y));
                },
                PathSegment::ClosePath => {},
            }
            proof {
                assert(out@ =~= Self::path_points(segs@.take(k as int + 1)));
            }
            k = k + 1;
        }
        proof {
            assert(segs@.take(n as int) =~= segs@);
        }
        out
    }

    /// Exec counterpart of [`Tree::points_bounds`].
    fn points_bounds_exec(t: &Transform, pts: &Vec<(i64, i64)>) -> (r: Option<PathBbox>)
        ensures
            r == Self::points_bounds(*t, pts@),
    {
        broadcast use vstd::seq_lib::group_seq_properties;

        let mut acc: Option<PathBbox> = None;
        let n = pts.len();
        let mut k: usize = 0;
        while k < n
            invariant
                n == pts@.len(),
                0 <= k <= n,
                acc == Self::points_bounds(*t, pts@.take(k as int)),
            decreases n - k,
        {
            proof {
                assert(pts@.take(k as int + 1).drop_last() =~= pts@.take(k as int));
                assert(pts@.take(k as int + 1).last() == pts@[k as int]);
            }
            let p = pts[k];
            match t.apply(p.0, p.1) {
                None => {
                    acc = None;
                },
                Some(q) => {
                    let pb = PathBbox { min_x: q.0, min_y: q.1, max_x: q.0, max_y: q.1 };
                    acc = match acc {
                        None => if k == 0 {
                            Some(pb)
                        } else {
                            None
                        },
                        Some(b) => Some(crate::geom::bbox_union(b, pb)),
                    };
                },
            }
            k = k + 1;
        }
        proof {
            assert(pts@.take(n as int) =~= pts@);
        }
        acc
    }

    /// Exec counterpart of [`Tree::finish_bbox`]; the bounds must come
    /// from [`Tree::points_bounds`] so that widening cannot overflow.
    fn finish_bbox_exec(b: Option<PathBbox>, hw: i64, Ghost(t): Ghost<Transform>, Ghost(
        pts,
    ): Ghost<Seq<(i64, i64)>>) -> (r: Option<PathBbox>)
        requires
            b == Self::points_bounds(t, pts),
            0 <= hw <= MAX_COORD,
        ensures
            r == Self::finish_bbox(b, hw as int),
    {
        proof {
            Self::lemma_points_bounds_range(t, pts);
        }
        match b {
            None => None,
            Some(bb) => {
                let w = PathBbox {
                    min_x: bb.min_x - hw,
                    min_y: bb.min_y - hw,
                    max_x: bb.max_x + hw,
                    max_y: bb.max_y + hw,
                };
                if w.min_x < w.max_x || w.min_y < w.max_y {
                    Some(w)
                } else {
                    None
                }
            },
        }
    }

    /// Runtime value of [`Tree::stroke_half_width`].
    fn stroke_half_width_exec(stroke: &Option<Stroke>) -> (r: i64)
        ensures
            r as int == Self::stroke_half_width(*stroke),
            0 <= r <= MAX_COORD,
    {
        match stroke {
            Some(s) => {
                if 0 < s.width && s.width <= MAX_COORD {
                    (s.width + 1) / 2
                } else if s.width > MAX_COORD {
                    (MAX_COORD + 1) / 2
                } else {
                    0
                }
            },
            None => 0,
        }
    }

    /// Calculates the bounding box of the node at `node` under the
    /// accumulated absolute transform `ts`.
    pub fn calc_node_bbox(&self, node: usize, ts: Transform) -> (r: Option<PathBbox>)
        requires
            self.wf(),
            (node as int) < self.len(),
        ensures
            r == self.node_bbox_spec(node, ts),
        decreases self.len() - node,
    {
        broadcast use vstd::seq_lib::group_seq_properties;

        match &self.nodes[node].kind {
            NodeKind::Path(p) => {
                let pts = Self::collect_path_points(&p.data.0);
                let raw = Self::points_bounds_exec(&ts, &pts);
                let hw = Self::stroke_half_width_exec(&p.stroke);
                Self::finish_bbox_exec(raw, hw, Ghost(ts), Ghost(pts@))
            },
            NodeKind::Image(img) => {
                let rect = img.view_box.rect;
                if -MAX_COORD <= rect.x && rect.x <= MAX_COORD && -MAX_COORD <= rect.y && rect.y
                    <= MAX_COORD && 0 <= rect.width && rect.width <= MAX_COORD && 0 <= rect.height
                    && rect.height <= MAX_COORD {
                    let mut pts: Vec<(i64, i64)> = Vec::new();
                    pts.push((rect.x, rect.y));
                    pts.push((rect.x + rect.width, rect.y));
                    pts.push((rect.x + rect.width, rect.y + rect.height));
                    pts.push((rect.x, rect.y + rect.height));
                    proof {
                        assert(pts@ =~= Self::image_corner_points(rect));
                    }
                    let raw = Self::points_bounds_exec(&ts, &pts);
                    Self::finish_bbox_exec(raw, 0, Ghost(ts), Ghost(pts@))
                } else {
                    None
                }
            },
            NodeKind::Group(_) => {
                let cs = self.nodes[node].children.clone();
                let n = cs.len();
                let mut acc: Option<PathBbox> = None;
                let mut k: usize = 0;
                while k < n
                    invariant
                        self.wf(),
                        (node as int) < self.len(),
                        cs@ == self.children_of(node as int),
                        n == cs@.len(),
                        0 <= k <= n,
                        acc == self.group_bbox(node, k as int, ts),
                    decreases n - k,
                {
                    proof {
                        assert(self.wf_node(node as int));
                    }
                    let c = cs[k];
                    let ct = self.nodes[c].kind.transform();
                    let cb = match ts.append(&ct) {
                        Some(cts) => self.calc_node_bbox(c, cts),
                        None => None,
                    };
                    acc = match (acc, cb) {
                        (None, x) => x,
                        (Some(ab), None) => Some(ab),
                        (Some(ab), Some(bb)) => Some(crate::geom::bbox_union(ab, bb)),
                    };
                    k = k + 1;
                }
                acc
            },
        }
    }

    /// Calculates the node's absolute bounding box: its extent under
    /// its absolute transform, or `None` when nothing contributes or
    /// the transform leaves the exact range.
    pub fn calculate_bbox(&self, node: usize) -> (r: Option<PathBbox>)
        requires
            self.wf(),
            (node as int) < self.len(),
        ensures
            r == match self.abs_transform_spec(node) {
                Some(ts) => self.node_bbox_spec(node, ts),
                None => None,
            },
    {
        match self.abs_transform(node) {
            Some(ts) => self.calc_node_bbox(node, ts),
            None => None,
        }
    }
}

impl Tree {
    /// A group with no children has no bounding box.
    pub proof fn lemma_empty_group_bbox(&self, i: usize, ts: Transform)
        requires
            self.wf(),
            (i as int) < self.len(),
            self.kind_of(i as int) is Group,
            self.children_of(i as int).len() == 0,
        ensures
            self.node_bbox_spec(i, ts) is None,
    {
    }

    /// A path of one point contributes no box of its own, but a
    /// stroke of positive width gives it one: only a path or stroke
    /// with nonzero extent is distinguishable from nothing.
    pub proof fn lemma_zero_area_path_bbox(&self, i: usize, ts: Transform, p: Path, x: i64, y: i64)
        requires
            self.wf(),
            (i as int) < self.len(),
            self.kind_of(i as int) == NodeKind::Path(p),
            p.data.0@ == seq![PathSegment::MoveTo { x, y }],
        ensures
            p.stroke is None ==> self.node_bbox_spec(i, ts) is None,
            (p.stroke matches Some(st) && 0 < st.width && ts.apply_spec(x, y) is Some)
                ==> self.node_bbox_spec(i, ts) is Some,
    {
        broadcast use vstd::seq_lib::group_seq_properties;

        let segs = p.data.0@;
        let pts = Self::path_points(segs);
        assert(segs.drop_last() =~= Seq::<PathSegment>::empty());
        assert(Self::path_points(segs.drop_last()) == Seq::<(i64, i64)>::empty());
        assert(pts =~= seq![(x, y)]);
        assert(pts.len() == 1);
        Self::lemma_points_bounds_range(ts, pts);
        match ts.apply_spec(x, y) {
            Some(q) => {
                let pb = PathBbox { min_x: q.0, min_y: q.1, max_x: q.0, max_y: q.1 };
                assert(Self::points_bounds(ts, pts) == Some(pb));
                let hw = Self::stroke_half_width(p.stroke);
                match p.stroke {
                    Some(st) => {
                        if 0 < st.width {
                            assert(1 <= hw <= (MAX_COORD + 1) / 2);
                            let lim = 5 * (MAX_COORD as int) * (MAX_COORD as int);
                            assert(-lim <= pb.min_x <= lim && -lim <= pb.min_y <= lim);
                            assert(5 * (1_000_000_000int) * (1_000_000_000int)
                                == 5_000_000_000_000_000_000int) by (nonlinear_arith);
                            assert(MAX_COORD == 1_000_000_000);
                            assert((pb.min_x - hw) as i64 == pb.min_x - hw);
                            assert((pb.max_x + hw) as i64 == pb.max_x + hw);
                            assert((pb.min_y - hw) as i64 == pb.min_y - hw);
                            assert((pb.max_y + hw) as i64 == pb.max_y + hw);
                        }
                    },
                    None => {},
                }
            },
            None => {
                assert(Self::points_bounds(ts, pts) is None);
            },
        }
    }
}

/// Compares two string slices by their bytes; equal bytes mean equal
/// character sequences.
pub fn str_eq(a: &str, b: &str) -> (r: bool)
    ensures
        r == (a@ == b@),
{
    broadcast use vstd::seq_lib::group_seq_properties;

    let ab = a.as_bytes();
    let bb = b.as_bytes();
    if ab.len() != bb.len() {
        proof {
            if a@ == b@ {
                assert(a.spec_bytes() == b.spec_bytes());
            }
        }
        return false;
    }
    let n = ab.len();
    let mut i: usize = 0;
    while i < n
        invariant
            ab@ == a.spec_bytes(),
            bb@ == b.spec_bytes(),
            n == ab@.len(),
            ab@.len() == bb@.len(),
            0 <= i <= n,
            forall|j: int| 0 <= j < i ==> ab@[j] == bb@[j],
        decreases n - i,
    {
        if ab[i] != bb[i] {
            proof {
                if a@ == b@ {
                    assert(a.spec_bytes() == b.spec_bytes());
                }
            }
            return false;
        }
        i = i + 1;
    }
    proof {
        assert(a.spec_bytes() =~= b.spec_bytes());
        vstd::utf8::encode_utf8_decode_utf8(a@);
        vstd::utf8::encode_utf8_decode_utf8(b@);
    }
    true
}

} // verus!
