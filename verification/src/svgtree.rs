//! The attributed source-element tree that the markup parser hands
//! over: tag names, parsed attribute values and child lists, addressed
//! by index. The conversion code reads this structure and never parses
//! markup text itself.

use vstd::prelude::*;

use crate::geom::{AspectRatio, Transform};
use crate::tree::Path;
use crate::{ImageRendering, Units, Visibility};

verus! {

/// The tag of a source element, as far as conversion distinguishes it.
#[derive(Clone, Copy, PartialEq, Eq, Structural, Debug)]
pub enum ETag {
    ClipPath,
    Path,
    Image,
    Other,
}

/// One attributed source element.
///
/// Attribute values arrive parsed: the transform attribute as an exact
/// transform plus a validity flag, references as element indices, and
/// a shape element's geometry as a ready path payload.
#[derive(Clone, PartialEq, Debug)]
pub struct Element {
    /// The element's tag.
    pub tag: ETag,
    /// The `id` attribute; empty when absent.
    pub id: String,
    /// Whether the transform attribute is syntactically valid.
    pub transform_valid: bool,
    /// The parsed transform attribute; identity when absent.
    pub transform: Transform,
    /// The element that the `clip-path` attribute references.
    pub clip_path_link: Option<usize>,
    /// The `clipPathUnits` attribute.
    pub units: Option<Units>,
    /// Child elements, in document order.
    pub children: Vec<usize>,
    /// For a shape element: its converted path payload.
    pub path: Option<Path>,
    /// The `visibility` attribute.
    pub visibility: Option<Visibility>,
    /// The `image-rendering` attribute.
    pub rendering_mode: Option<ImageRendering>,
    /// The `x` attribute, resolved to user units.
    pub x: i64,
    /// The `y` attribute, resolved to user units.
    pub y: i64,
    /// The `width` attribute, resolved to user units.
    pub width: i64,
    /// The `height` attribute, resolved to user units.
    pub height: i64,
    /// The `preserveAspectRatio` attribute.
    pub aspect: Option<AspectRatio>,
    /// The `xlink:href` attribute.
    pub href: Option<String>,
}

/// The parsed source document: all elements, addressed by index.
#[derive(Clone, PartialEq, Debug)]
pub struct Document {
    /// All elements; references and child lists index into this list.
    pub elements: Vec<Element>,
}

impl Document {
    /// Number of elements.
    pub open spec fn len(&self) -> int {
        self.elements@.len() as int
    }

    /// Element at `i`.
    pub open spec fn elem(&self, i: int) -> Element {
        self.elements@[i]
    }

    /// Every reference and child index stays inside the document.
    pub open spec fn wf(&self) -> bool {
        forall|i: int|
            0 <= i < self.len() ==> {
                let e = #[trigger] self.elem(i);
                &&& (e.clip_path_link matches Some(l) ==> (l as int) < self.len())
                &&& forall|k: int|
                    0 <= k < e.children@.len() ==> ((#[trigger] e.children@[k] as int)
                        < self.len())
            }
    }
}

} // verus!
