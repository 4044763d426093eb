//! A simplified vector-document model: a resolved, render-ready tree of
//! groups, paths and images, with exact integer geometry, reference
//! resolution for clip paths and image sources, bounding boxes and
//! image placement.

pub mod clip;
pub mod geom;
pub mod image;
pub mod svgtree;
pub mod tree;

use std::io::Read;
use vstd::prelude::*;

verus! {

use vstd::utf8::{valid_utf8, decode_utf8};

/// An element units attribute: which coordinate space a resource uses.
#[derive(Clone, Copy, PartialEq, Eq, Structural, Debug)]
pub enum Units {
    UserSpaceOnUse,
    ObjectBoundingBox,
}

/// A visibility property.
///
/// `visibility` attribute in the SVG.
#[derive(Clone, Copy, PartialEq, Eq, Structural, Debug)]
pub enum Visibility {
    Visible,
    Hidden,
    Collapse,
}

impl Default for Visibility {
    fn default() -> (r: Self)
        ensures
            r is Visible,
    {
        Visibility::Visible
    }
}

/// A text rendering method.
///
/// `text-rendering` attribute in the SVG.
#[derive(Clone, Copy, PartialEq, Eq, Structural, Debug)]
pub enum TextRendering {
    OptimizeSpeed,
    OptimizeLegibility,
    GeometricPrecision,
}

impl Default for TextRendering {
    fn default() -> (r: Self)
        ensures
            r is OptimizeLegibility,
    {
        TextRendering::OptimizeLegibility
    }
}

/// An image rendering method.
///
/// `image-rendering` attribute in the SVG.
#[derive(Clone, Copy, PartialEq, Eq, Structural, Debug)]
pub enum ImageRendering {
    OptimizeQuality,
    OptimizeSpeed,
}

impl Default for ImageRendering {
    fn default() -> (r: Self)
        ensures
            r is OptimizeQuality,
    {
        ImageRendering::OptimizeQuality
    }
}

/// A shape rendering method.
///
/// `shape-rendering` attribute in the SVG.
#[derive(Clone, Copy, PartialEq, Eq, Structural, Debug)]
pub enum ShapeRendering {
    OptimizeSpeed,
    CrispEdges,
    GeometricPrecision,
}

impl Default for ShapeRendering {
    fn default() -> (r: Self)
        ensures
            r is GeometricPrecision,
    {
        ShapeRendering::GeometricPrecision
    }
}

impl ShapeRendering {
    /// Checks if anti-aliasing should be enabled.
    pub fn use_shape_antialiasing(self) -> (r: bool)
        ensures
            r == (self is GeometricPrecision),
    {
        match self {
            ShapeRendering::OptimizeSpeed => false,
            ShapeRendering::CrispEdges => false,
            ShapeRendering::GeometricPrecision => true,
        }
    }
}

/// Fill and stroke paint order of a path.
///
/// `paint-order` in SVG; markers are resolved beforehand, so only the
/// fill and stroke orders remain.
#[derive(Clone, Copy, PartialEq, Eq, Structural, Debug)]
pub enum PaintOrder {
    FillAndStroke,
    StrokeAndFill,
}

impl Default for PaintOrder {
    fn default() -> (r: Self)
        ensures
            r is FillAndStroke,
    {
        PaintOrder::FillAndStroke
    }
}

/// An RGB color.
#[derive(Clone, Copy, PartialEq, Eq, Structural, Debug)]
pub struct Color {
    pub red: u8,
    pub green: u8,
    pub blue: u8,
}

/// A paint source: a plain color or a link to a paint server by id.
#[derive(Clone, PartialEq, Debug)]
pub enum Paint {
    Color(Color),
    Link(String),
}

/// A fill style.
///
/// Opacity runs from 0 (transparent) to 255 (opaque).
#[derive(Clone, PartialEq, Debug)]
pub struct Fill {
    pub paint: Paint,
    pub opacity: u8,
}

/// A stroke style.
///
/// Opacity runs from 0 (transparent) to 255 (opaque); the width is a
/// positive integer coordinate.
#[derive(Clone, PartialEq, Debug)]
pub struct Stroke {
    pub paint: Paint,
    pub opacity: u8,
    pub width: i64,
}

/// An `enable-background` attribute value: the `new` form with its
/// optional region.
#[derive(Clone, Copy, PartialEq, Eq, Structural, Debug)]
pub struct EnableBackground(pub Option<crate::geom::Rect>);

/// An error that prevents producing any tree at all.
#[derive(Clone, Copy, PartialEq, Eq, Structural, Debug)]
pub enum Error {
    /// The input text is not valid UTF-8.
    NotAnUtf8Str,
    /// The input starts with the gzip magic but cannot be decompressed.
    MalformedGZip,
}

/// An immutable configuration bundle read during conversion.
///
/// The dpi and the font size are stored as integers; lengths in this
/// model are exact integer coordinates.
#[derive(Clone, PartialEq, Debug)]
pub struct Options {
    /// Source path of the document, used to resolve relative references.
    pub path: Option<String>,
    /// Target DPI.
    pub dpi: u32,
    /// Default font family.
    pub font_family: String,
    /// Default font size.
    pub font_size: u32,
    /// Preferred languages, most preferred first.
    pub languages: Vec<String>,
    /// Default shape rendering quality.
    pub shape_rendering: ShapeRendering,
    /// Default text rendering quality.
    pub text_rendering: TextRendering,
    /// Default image rendering quality.
    pub image_rendering: ImageRendering,
    /// Whether groups that only carry a name are kept.
    pub keep_named_groups: bool,
}

/// Relies on `String::from_utf8` of std: it succeeds exactly on valid
/// UTF-8 input and then returns the decoded characters.
#[verifier::external_body]
fn string_from_utf8(v: Vec<u8>) -> (r: Option<String>)
    ensures
        (r is Some) <==> valid_utf8(v@),
        r matches Some(s) ==> s@ == decode_utf8(v@),
{
    String::from_utf8(v).ok()
}

/// The decompressed text of `data` as the gzip sniffing sees it: the
/// payload behind the gzip magic, decompressed, or the raw bytes.
pub uninterp spec fn gunzip(data: Seq<u8>) -> Option<Seq<u8>>;

/// Relies on `flate2::read::GzDecoder` together with
/// `std::io::Read::read_to_end`: decompression of a byte buffer is a
/// function of the bytes alone; it either fails or yields the
/// decompressed payload, which this crate names [`gunzip`].
#[verifier::external_body]
fn gz_decompress(data: &[u8]) -> (r: Option<Vec<u8>>)
    ensures
        match r {
            Some(v) => gunzip(data@) == Some(v@),
            None => gunzip(data@) == Option::<Seq<u8>>::None,
        },
{
    let mut decoder = flate2::read::GzDecoder::new(data);
    let mut decoded = Vec::with_capacity(data.len() * 2);
    match decoder.read_to_end(&mut decoded) {
        Ok(_) => Some(decoded),
        Err(_) => None,
    }
}

/// What [`deflate`] returns for `data`: the decompressed text, or the
/// error naming the step that failed.
pub open spec fn deflate_spec(data: Seq<u8>) -> Result<Seq<char>, Error> {
    match gunzip(data) {
        Some(decoded) => if valid_utf8(decoded) {
            Ok(decode_utf8(decoded))
        } else {
            Err(Error::NotAnUtf8Str)
        },
        None => Err(Error::MalformedGZip),
    }
}

/// Decompresses gzip-compressed document text.
pub fn deflate(data: &[u8]) -> (r: Result<String, Error>)
    ensures
        match r {
            Ok(s) => deflate_spec(data@) matches Ok(t) && s@ == t,
            Err(e) => deflate_spec(data@) == Result::<Seq<char>, Error>::Err(e),
        },
{
    match gz_decompress(data) {
        Some(decoded) => match string_from_utf8(decoded) {
            Some(s) => Ok(s),
            None => Err(Error::NotAnUtf8Str),
        },
        None => Err(Error::MalformedGZip),
    }
}

/// Whether `data` starts with the two gzip magic bytes.
pub open spec fn is_gzip_spec(data: Seq<u8>) -> bool {
    data.len() >= 2 && data[0] == 0x1f && data[1] == 0x8b
}

/// What [`svg_text_from_data`] returns for `data`.
pub open spec fn svg_text_from_data_spec(data: Seq<u8>) -> Result<Seq<char>, Error> {
    if is_gzip_spec(data) {
        deflate_spec(data)
    } else {
        if valid_utf8(data) {
            Ok(decode_utf8(data))
        } else {
            Err(Error::NotAnUtf8Str)
        }
    }
}

/// Turns raw document bytes into text: gzip-compressed input is
/// decompressed first, anything else must be UTF-8 already.
pub fn svg_text_from_data(data: &[u8]) -> (r: Result<String, Error>)
    ensures
        match r {
            Ok(s) => svg_text_from_data_spec(data@) matches Ok(t) && s@ == t,
            Err(e) => svg_text_from_data_spec(data@) == Result::<Seq<char>, Error>::Err(e),
        },
{
    if data.len() >= 2 && data[0] == 0x1f && data[1] == 0x8b {
        deflate(data)
    } else {
        let mut copy: Vec<u8> = Vec::new();
        copy.extend_from_slice(data);
        assert(copy@ == data@);
        match string_from_utf8(copy) {
            Some(s) => Ok(s),
            None => Err(Error::NotAnUtf8Str),
        }
    }
}

} // verus!
