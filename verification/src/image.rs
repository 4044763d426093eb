//! Image handling: resolution of an image element's source, byte
//! sniffing of raster formats, decoding and channel normalization of
//! raster content, placement under an aspect-ratio rule, and loading
//! and sanitizing embedded vector sub-documents.

use rgb::FromSlice;
use vstd::prelude::*;

use crate::geom::{aligned_pos, aligned_pos_spec, fit_view_box_spec, MAX_COORD, Rect, ScreenSize,
    Transform, ViewBox};
use crate::svgtree::Element;
use crate::tree::{str_eq, Image, ImageKind, NodeKind, Tree};
use crate::{ImageRendering, Options, Visibility};

verus! {

use vstd::string::StringSliceAdditionalSpecFns;

/// A recognized image container format.
#[derive(Clone, Copy, PartialEq, Eq, Structural, Debug)]
pub enum ImageFormat {
    PNG,
    JPEG,
    SVG,
}

/// The fixed eight-byte PNG signature.
pub open spec fn png_magic() -> Seq<u8> {
    seq![0x89u8, 0x50u8, 0x4eu8, 0x47u8, 0x0du8, 0x0au8, 0x1au8, 0x0au8]
}

/// The three-byte JPEG start-of-image prefix.
pub open spec fn jpeg_magic() -> Seq<u8> {
    seq![0xffu8, 0xd8u8, 0xffu8]
}

/// `data` starts with `prefix`.
pub open spec fn starts_with_spec(data: Seq<u8>, prefix: Seq<u8>) -> bool {
    data.len() >= prefix.len() && data.take(prefix.len() as int) == prefix
}

/// What byte sniffing recognizes: the PNG signature, the JPEG
/// start-of-image prefix, or nothing. The surrounding metadata plays
/// no part; only the leading bytes decide.
pub open spec fn data_format_spec(data: Seq<u8>) -> Option<ImageFormat> {
    if starts_with_spec(data, png_magic()) {
        Some(ImageFormat::PNG)
    } else if starts_with_spec(data, jpeg_magic()) {
        Some(ImageFormat::JPEG)
    } else {
        None
    }
}

/// Checks for the PNG or the JPEG magic bytes.
pub fn get_image_data_format(data: &[u8]) -> (r: Option<ImageFormat>)
    ensures
        r == data_format_spec(data@),
{
    broadcast use vstd::seq_lib::group_seq_properties;

    if data.len() >= 8 && data[0] == 0x89 && data[1] == 0x50 && data[2] == 0x4e && data[3] == 0x47
        && data[4] == 0x0d && data[5] == 0x0a && data[6] == 0x1a && data[7] == 0x0a {
        proof {
            assert(data@.take(8) =~= png_magic());
        }
        Some(ImageFormat::PNG)
    } else if data.len() >= 3 && data[0] == 0xff && data[1] == 0xd8 && data[2] == 0xff {
        proof {
            assert(data@.take(3) =~= jpeg_magic());
            if starts_with_spec(data@, png_magic()) {
                assert(data@.take(8)[0] == data@[0]);
            }
        }
        Some(ImageFormat::JPEG)
    } else {
        proof {
            if starts_with_spec(data@, png_magic()) {
                assert(data@.take(8)[0] == data@[0]);
                assert(data@.take(8)[1] == data@[1]);
                assert(data@.take(8)[2] == data@[2]);
                assert(data@.take(8)[3] == data@[3]);
                assert(data@.take(8)[4] == data@[4]);
                assert(data@.take(8)[5] == data@[5]);
                assert(data@.take(8)[6] == data@[6]);
                assert(data@.take(8)[7] == data@[7]);
            }
            if starts_with_spec(data@, jpeg_magic()) {
                assert(data@.take(3)[0] == data@[0]);
                assert(data@.take(3)[1] == data@[1]);
                assert(data@.take(3)[2] == data@[2]);
            }
        }
        None
    }
}

/// Lower-cases one ASCII byte.
pub open spec fn ascii_lower(b: u8) -> u8 {
    if 65 <= b <= 90 {
        (b + 32) as u8
    } else {
        b
    }
}

/// Position after the last `.` of `s`, when the part after it holds no
/// path separator: the file extension, still in original case.
pub open spec fn ext_start(s: Seq<u8>, n: int) -> Option<int>
    decreases n,
{
    if n <= 0 {
        None
    } else if s[n - 1] == 46 {
        Some(n)
    } else if s[n - 1] == 47 {
        None
    } else {
        ext_start(s, n - 1)
    }
}

/// The lower-cased extension of a reference string, if it has one.
pub open spec fn href_ext_spec(s: Seq<u8>) -> Option<Seq<u8>> {
    match ext_start(s, s.len() as int) {
        Some(p) => Some(s.skip(p).map(|_i: int, b: u8| ascii_lower(b))),
        None => None,
    }
}

/// Exec counterpart of [`href_ext_spec`].
#[verifier::loop_isolation(false)]
fn href_extension(href: &str) -> (r: Option<Vec<u8>>)
    ensures
        match r {
            Some(v) => href_ext_spec(href.spec_bytes()) == Some(v@),
            None => href_ext_spec(href.spec_bytes()) is None,
        },
{
    broadcast use vstd::seq_lib::group_seq_properties;

    let bytes = href.as_bytes();
    let n = bytes.len();
    let mut p: usize = n;
    loop
        invariant
            n == bytes@.len(),
            0 <= p <= n,
            ext_start(bytes@, n as int) == ext_start(bytes@, p as int),
        decreases p,
    {
        if p == 0 {
            return None;
        }
        let b = bytes[p - 1];
        if b == 46 {
            let mut out: Vec<u8> = Vec::new();
            let mut k: usize = p;
            while k < n
                invariant
                    n == bytes@.len(),
                    p <= k <= n,
                    0 < p,
                    ext_start(bytes@, n as int) == Some(p as int),
                    out@ =~= bytes@.skip(p as int).map(|_i: int, c: u8| ascii_lower(c)).take(
                        k - p,
                    ),
                decreases n - k,
            {
                let c = bytes[k];
                if 65 <= c && c <= 90 {
                    out.push(c + 32);
                } else {
                    out.push(c);
                }
                proof {
                    let m = bytes@.skip(p as int).map(|_i: int, c2: u8| ascii_lower(c2));
                    assert(m.take(k - p + 1) =~= m.take(k - p).push(m[k - p]));
                }
                k = k + 1;
            }
            proof {
                let m = bytes@.skip(p as int).map(|_i: int, c2: u8| ascii_lower(c2));
                assert(out@ =~= m);
            }
            return Some(out);
        }
        if b == 47 {
            return None;
        }
        p = p - 1;
    }
}

/// Bytes of the lower-case `svg` extension.
pub open spec fn svg_ext() -> Seq<u8> {
    seq![115u8, 118u8, 103u8]
}

/// Bytes of the lower-case `svgz` extension.
pub open spec fn svgz_ext() -> Seq<u8> {
    seq![115u8, 118u8, 103u8, 122u8]
}

/// What the file-format check returns: vector content for an `svg` or
/// `svgz` extension, otherwise the sniffed format of the first eight
/// bytes; fewer than eight bytes cannot be sniffed here.
pub open spec fn file_format_spec(href_bytes: Seq<u8>, data: Seq<u8>) -> Option<ImageFormat> {
    if href_ext_spec(href_bytes) == Some(svg_ext()) || href_ext_spec(href_bytes) == Some(
        svgz_ext(),
    ) {
        Some(ImageFormat::SVG)
    } else if data.len() < 8 {
        None
    } else {
        data_format_spec(data.take(8))
    }
}

/// Checks for a PNG or a JPEG magic or an SVG(Z) extension.
pub fn get_image_file_format(href: &str, data: &[u8]) -> (r: Option<ImageFormat>)
    ensures
        r == file_format_spec(href.spec_bytes(), data@),
{
    broadcast use vstd::seq_lib::group_seq_properties;

    let is_svg = match href_extension(href) {
        Some(ext) => {
            let svg = eq_bytes_svg(&ext);
            let svgz = eq_bytes_svgz(&ext);
            svg || svgz
        },
        None => false,
    };
    if is_svg {
        return Some(ImageFormat::SVG);
    }
    if data.len() < 8 {
        return None;
    }
    let head = slice_take8(data);
    let r = get_image_data_format(head.as_slice());
    proof {
        assert(head@ =~= data@.take(8));
    }
    r
}

/// Whether the bytes read `svg`.
fn eq_bytes_svg(v: &Vec<u8>) -> (r: bool)
    ensures
        r == (v@ == svg_ext()),
{
    proof {
        if v@.len() == 3 && v@[0] == 115 && v@[1] == 118 && v@[2] == 103 {
            assert(v@ =~= svg_ext());
        }
    }
    v.len() == 3 && v[0] == 115 && v[1] == 118 && v[2] == 103
}

/// Whether the bytes read `svgz`.
fn eq_bytes_svgz(v: &Vec<u8>) -> (r: bool)
    ensures
        r == (v@ == svgz_ext()),
{
    proof {
        if v@.len() == 4 && v@[0] == 115 && v@[1] == 118 && v@[2] == 103 && v@[3] == 122 {
            assert(v@ =~= svgz_ext());
        }
    }
    v.len() == 4 && v[0] == 115 && v[1] == 118 && v[2] == 103 && v[3] == 122
}

/// Copies the first eight bytes of a slice.
fn slice_take8(data: &[u8]) -> (r: Vec<u8>)
    requires
        data@.len() >= 8,
    ensures
        r@.len() == 8,
        forall|i: int| 0 <= i < 8 ==> r@[i] == data@[i],
{
    let mut out: Vec<u8> = Vec::new();
    out.push(data[0]);
    out.push(data[1]);
    out.push(data[2]);
    out.push(data[3]);
    out.push(data[4]);
    out.push(data[5]);
    out.push(data[6]);
    out.push(data[7]);
    out
}

/// `a` is `b` with some elements dropped, every dropped element an
/// image node of `t0`; matching is positional from the front.
pub open spec fn drops_images(t0: Tree, a: Seq<usize>, b: Seq<usize>) -> bool
    decreases b.len(),
{
    if b.len() == 0 {
        a.len() == 0
    } else if a.len() > 0 && a[0] == b[0] {
        drops_images(t0, a.drop_first(), b.drop_first())
    } else {
        t0.is_image(b[0] as int) && drops_images(t0, a, b.drop_first())
    }
}

/// The elements of `b` that are not image nodes of `t0`, in order.
pub open spec fn non_image_children(t0: Tree, b: Seq<usize>) -> Seq<usize>
    decreases b.len(),
{
    if b.len() == 0 {
        Seq::empty()
    } else if t0.is_image(b[0] as int) {
        non_image_children(t0, b.drop_first())
    } else {
        seq![b[0]] + non_image_children(t0, b.drop_first())
    }
}

/// Dropping nothing drops only images.
proof fn lemma_drops_images_refl(t0: Tree, b: Seq<usize>)
    ensures
        drops_images(t0, b, b),
    decreases b.len(),
{
    if b.len() > 0 {
        lemma_drops_images_refl(t0, b.drop_first());
    }
}

/// Removing one image element keeps the dropped-only-images relation.
proof fn lemma_drops_images_remove(t0: Tree, a: Seq<usize>, b: Seq<usize>, idx: int)
    requires
        drops_images(t0, a, b),
        0 <= idx < a.len(),
        t0.is_image(a[idx] as int),
    ensures
        drops_images(t0, a.remove(idx), b),
    decreases b.len(), 0int,
{
    broadcast use vstd::seq_lib::group_seq_properties;

    if b.len() == 0 {
    } else if a.len() > 0 && a[0] == b[0] {
        if idx == 0 {
            assert(a.remove(0) =~= a.drop_first());
            lemma_drops_images_prepend(t0, a.drop_first(), b.drop_first(), b[0]);
            assert(seq![b[0]] + b.drop_first() =~= b);
        } else {
            lemma_drops_images_remove(t0, a.drop_first(), b.drop_first(), idx - 1);
            assert(a.remove(idx).drop_first() =~= a.drop_first().remove(idx - 1));
            assert(a.remove(idx)[0] == a[0]);
            assert(a.remove(idx).len() > 0);
        }
    } else {
        lemma_drops_images_remove(t0, a, b.drop_first(), idx);
        lemma_drops_images_prepend(t0, a.remove(idx), b.drop_first(), b[0]);
        assert(seq![b[0]] + b.drop_first() =~= b);
    }
}

/// Putting one image element in front of `b` keeps the relation.
proof fn lemma_drops_images_prepend(t0: Tree, a: Seq<usize>, c: Seq<usize>, v: usize)
    requires
        drops_images(t0, a, c),
        t0.is_image(v as int),
    ensures
        drops_images(t0, a, seq![v] + c),
    decreases c.len(), 1int,
{
    broadcast use vstd::seq_lib::group_seq_properties;

    let b = seq![v] + c;
    assert(b[0] == v);
    assert(b.drop_first() =~= c);
    if a.len() > 0 && a[0] == v {
        // the head of `a` is the image `v`; it can be matched away
        lemma_drops_images_remove(t0, a, c, 0);
        assert(a.remove(0) =~= a.drop_first());
    }
}

/// When nothing left in `a` is an image, `a` is exactly the non-image
/// part of `b`.
proof fn lemma_drops_images_complete(t0: Tree, a: Seq<usize>, b: Seq<usize>)
    requires
        drops_images(t0, a, b),
        forall|j: int| 0 <= j < a.len() ==> !t0.is_image((#[trigger] a[j]) as int),
    ensures
        a == non_image_children(t0, b),
    decreases b.len(),
{
    broadcast use vstd::seq_lib::group_seq_properties;

    if b.len() == 0 {
        assert(a =~= non_image_children(t0, b));
    } else if a.len() > 0 && a[0] == b[0] {
        assert(!t0.is_image(a[0] as int));
        assert forall|j: int|
            0 <= j < a.drop_first().len() implies !t0.is_image(
            (#[trigger] a.drop_first()[j]) as int,
        ) by {
            assert(a.drop_first()[j] == a[j + 1]);
        }
        lemma_drops_images_complete(t0, a.drop_first(), b.drop_first());
        assert(a =~= seq![b[0]] + non_image_children(t0, b.drop_first()));
    } else {
        lemma_drops_images_complete(t0, a, b.drop_first());
    }
}

/// How a sanitized tree relates to the tree it came from: same slots,
/// same payloads, no reachable image is left, every reachable node
/// keeps exactly its non-image children, and a tree that already had
/// no reachable image comes back unchanged.
pub open spec fn sanitize_rel(t0: Tree, t1: Tree) -> bool {
    &&& t1.len() == t0.len()
    &&& forall|i: int| 0 <= i < t0.len() ==> t1.kind_of(i) == t0.kind_of(i)
    &&& t1.size == t0.size
    &&& t1.view_box == t0.view_box
    &&& t1.spec_clip_paths() == t0.spec_clip_paths()
    &&& !t1.has_reachable_image()
    &&& forall|i: usize|
        t1.reachable(i) ==> #[trigger] t1.children_of(i as int) == non_image_children(
            t0,
            t0.children_of(i as int),
        )
    &&& (!t0.has_reachable_image() ==> t1 == t0)
}

/// Removes every image node from the tree, as the format rules require
/// of embedded vector content: scans the tree for an image node,
/// detaches the first one found together with its subtree, and
/// restarts the scan until a full scan finds none.
pub fn sanitize_sub_svg(tree: &mut Tree)
    requires
        old(tree).wf(),
    ensures
        final(tree).wf(),
        sanitize_rel(*old(tree), *final(tree)),
{
    broadcast use vstd::seq_lib::group_seq_properties;

    let ghost t0 = *old(tree);
    proof {
        assert forall|i: int|
            0 <= i < t0.len() implies drops_images(
            t0,
            tree.children_of(i),
            t0.children_of(i),
        ) by {
            lemma_drops_images_refl(t0, t0.children_of(i));
        }
    }
    loop
        invariant
            t0 == *old(tree),
            tree.wf(),
            tree.len() == t0.len(),
            forall|i: int| 0 <= i < t0.len() ==> tree.kind_of(i) == t0.kind_of(i),
            tree.size == t0.size,
            tree.view_box == t0.view_box,
            tree.spec_clip_paths() == t0.spec_clip_paths(),
            forall|i: int|
                0 <= i < t0.len() ==> drops_images(
                    t0,
                    #[trigger] tree.children_of(i),
                    t0.children_of(i),
                ),
            *tree == t0 || t0.has_reachable_image(),
        decreases tree.total_links(),
    {
        let ds = tree.descendants(0);
        proof {
            tree.lemma_preorder_facts(0);
            assert forall|j: int| 0 <= j < ds@.len() implies ((ds@[j] as int) < tree.len()) by {
                assert(tree.preorder(0).contains(ds@[j]));
            }
        }
        let n = ds.len();
        let mut k: usize = 0;
        let mut found: Option<usize> = None;
        while k < n
            invariant
                tree.wf(),
                ds@ == tree.preorder(0),
                n == ds@.len(),
                0 <= k <= n,
                forall|j: int| 0 <= j < n ==> ((ds@[j] as int) < tree.len()),
                found is None ==> forall|j: int|
                    0 <= j < k ==> !tree.is_image((#[trigger] ds@[j]) as int),
                found matches Some(x) ==> tree.reachable(x) && tree.is_image(x as int) && ((
                x as int) < tree.len()),
            decreases n - k,
        {
            let node = ds[k];
            let is_img = match &tree.nodes[node].kind {
                NodeKind::Image(_) => true,
                _ => false,
            };
            if is_img {
                proof {
                    assert(tree.preorder(0).contains(ds@[k as int]));
                }
                found = Some(node);
                k = n;
            } else {
                k = k + 1;
            }
        }
        match found {
            None => {
                proof {
                    assert forall|j: usize|
                        tree.reachable(j) implies !tree.is_image(j as int) by {
                        let idx = choose|idx: int|
                            0 <= idx < ds@.len() && ds@[idx] == j;
                        assert(!tree.is_image((ds@[idx]) as int));
                    }
                    assert(!tree.has_reachable_image());
                    if *tree != t0 {
                        assert(t0.has_reachable_image());
                    }
                    assert forall|i: usize|
                        tree.reachable(i) implies #[trigger] tree.children_of(i as int)
                        == non_image_children(t0, t0.children_of(i as int)) by {
                        tree.lemma_preorder_facts(0);
                        assert((i as int) < tree.len());
                        let a = tree.children_of(i as int);
                        assert forall|j: int|
                            0 <= j < a.len() implies !t0.is_image((#[trigger] a[j]) as int) by {
                            assert(tree.wf_node(i as int));
                            assert(a.contains(a[j]));
                            tree.lemma_preorder_contains_child(0, i, a[j]);
                            assert(!tree.is_image((a[j]) as int));
                        }
                        lemma_drops_images_complete(t0, a, t0.children_of(i as int));
                    }
                }
                return ;
            },
            Some(x) => {
                proof {
                    assert(tree.kind_of(0) is Group);
                    assert(x != 0);
                    tree.lemma_reachable_parent(0, x);
                    if *tree == t0 {
                        assert(t0.reachable(x) && t0.is_image(x as int));
                        assert(t0.has_reachable_image());
                    }
                    tree.lemma_links_nonneg(tree.len());
                }
                let ghost pre = *tree;
                tree.detach(x);
                proof {
                    tree.lemma_links_nonneg(tree.len());
                    let p = pre.parent_of(x as int).unwrap();
                    let a0 = pre.children_of(p as int);
                    let a1 = tree.children_of(p as int);
                    a0.index_of_first_ensures(x);
                    assert(pre.wf_node(x as int));
                    assert(a0.contains(x));
                    let fi = a0.index_of_first(x).unwrap();
                    assert(a1 == a0.remove(fi));
                    assert(t0.is_image(a0[fi] as int));
                    assert forall|i: int|
                        0 <= i < t0.len() implies drops_images(
                        t0,
                        #[trigger] tree.children_of(i),
                        t0.children_of(i),
                    ) by {
                        if i == p as int {
                            lemma_drops_images_remove(t0, a0, t0.children_of(i), fi);
                        } else {
                            assert(tree.children_of(i) == pre.children_of(i));
                        }
                    }
                }
            },
        }
    }
}

/// Sanitizing is idempotent: a second pass over an already sanitized
/// tree gives the very same tree.
pub proof fn lemma_sanitize_idempotent(t0: Tree, t1: Tree, t2: Tree)
    requires
        sanitize_rel(t0, t1),
        sanitize_rel(t1, t2),
    ensures
        t2 == t1,
{
}

/// The options a vector sub-document is parsed with: the same
/// rendering, font, dpi and language options, named-group retention
/// forced off and no filesystem path context, so that the sub-document
/// cannot resolve further relative references.
pub fn sub_svg_options(opt: &Options) -> (r: Options)
    ensures
        r.path is None,
        r.keep_named_groups == false,
        r.dpi == opt.dpi,
        r.font_family@ == opt.font_family@,
        r.font_size == opt.font_size,
        r.languages@ == opt.languages@,
        r.shape_rendering == opt.shape_rendering,
        r.text_rendering == opt.text_rendering,
        r.image_rendering == opt.image_rendering,
{
    Options {
        path: None,
        dpi: opt.dpi,
        font_family: opt.font_family.clone(),
        font_size: opt.font_size,
        languages: opt.languages.clone(),
        shape_rendering: opt.shape_rendering,
        text_rendering: opt.text_rendering,
        image_rendering: opt.image_rendering,
        keep_named_groups: false,
    }
}

/// Tries to use a parsed sub-document as an embedded vector image.
///
/// The surrounding system parses the raw bytes with the options that
/// [`sub_svg_options`] derives; parsing failure arrives here as
/// `None` and degrades gracefully. A parsed tree has every image
/// element removed, as required of embedded vector content.
pub fn load_sub_svg(parsed: Option<Tree>) -> (r: Option<Tree>)
    requires
        parsed matches Some(t) ==> t.wf(),
    ensures
        (r is Some) <==> (parsed is Some),
        r matches Some(t1) ==> parsed matches Some(t) && t1.wf() && sanitize_rel(t, t1),
{
    match parsed {
        Some(mut tree) => {
            sanitize_sub_svg(&mut tree);
            Some(tree)
        },
        None => None,
    }
}


/// What processing a data URL yields, as a function of the reference
/// string alone: `None` when the string is not a data URL at all;
/// `Some(None)` when it is one but its payload does not decode; and
/// otherwise the media type, subtype and decoded payload.
pub uninterp spec fn data_url_parts(href: Seq<char>) -> Option<
    Option<(Seq<char>, Seq<char>, Seq<u8>)>,
>;

/// Relies on `data_url::DataUrl::process` and `decode_to_vec`:
/// recognizing and decoding a data URL depends on the string alone;
/// this crate names the outcome [`data_url_parts`]. The mime type and
/// subtype come back as the crate parsed them.
#[verifier::external_body]
fn parse_data_url(href: &str) -> (r: Option<Option<(String, String, Vec<u8>)>>)
    ensures
        match r {
            Some(Some(p)) => data_url_parts(href@) == Some(Some((p.0@, p.1@, p.2@))),
            Some(None) => data_url_parts(href@) == Some(
                Option::<(Seq<char>, Seq<char>, Seq<u8>)>::None,
            ),
            None => data_url_parts(href@) is None,
        },
{
    match data_url::DataUrl::process(href) {
        Ok(url) => match url.decode_to_vec() {
            Ok((data, _)) => Some(
                Some(
                    (url.mime_type().type_.clone(), url.mime_type().subtype.clone(), data),
                ),
            ),
            Err(_) => Some(None),
        },
        Err(_) => None,
    }
}

/// Whether resolving `href` yields an image payload, given the bytes
/// of the referenced file when `href` names one.
pub open spec fn href_resolves_full(
    href: Seq<char>,
    href_bytes: Seq<u8>,
    file_data: Option<Seq<u8>>,
) -> bool {
    match data_url_parts(href) {
        Some(Some((t, st, d))) => (t == "image"@ && (st == "jpg"@ || st == "jpeg"@ || st == "png"@
            || st == "svg+xml"@)) || (t == "text"@ && st == "plain"@),
        Some(None) => false,
        None => match file_data {
            Some(fd) => file_format_spec(href_bytes, fd) is Some,
            None => false,
        },
    }
}

/// The payload and kind that resolving `href` must produce: each case
/// of the media-type dispatch and of the file-format check pins the
/// returned kind and its bytes; the options stored with vector content
/// are the ones handed in.
pub open spec fn matches_href_kind(
    r: Option<ImageKind>,
    href: Seq<char>,
    href_bytes: Seq<u8>,
    file_data: Option<Seq<u8>>,
) -> bool {
    match data_url_parts(href) {
        Some(Some((t, st, d))) => {
            if t == "image"@ && (st == "jpg"@ || st == "jpeg"@) {
                r matches Some(k) && k matches ImageKind::JPEG(v) && v@ == d
            } else if t == "image"@ && st == "png"@ {
                r matches Some(k) && k matches ImageKind::PNG(v) && v@ == d
            } else if t == "image"@ && st == "svg+xml"@ {
                r matches Some(k) && k matches ImageKind::SVG(v, _o) && v@ == d
            } else if t == "text"@ && st == "plain"@ {
                match data_format_spec(d) {
                    Some(ImageFormat::JPEG) => r matches Some(k) && k matches ImageKind::JPEG(v)
                        && v@ == d,
                    Some(ImageFormat::PNG) => r matches Some(k) && k matches ImageKind::PNG(v)
                        && v@ == d,
                    _ => r matches Some(k) && k matches ImageKind::SVG(v, _o) && v@ == d,
                }
            } else {
                r is None
            }
        },
        Some(None) => r is None,
        None => match file_data {
            Some(fd) => match file_format_spec(href_bytes, fd) {
                Some(ImageFormat::JPEG) => r matches Some(k) && k matches ImageKind::JPEG(v) && v@
                    == fd,
                Some(ImageFormat::PNG) => r matches Some(k) && k matches ImageKind::PNG(v) && v@
                    == fd,
                Some(ImageFormat::SVG) => r matches Some(k) && k matches ImageKind::SVG(v, _o)
                    && v@ == fd,
                None => r is None,
            },
            None => r is None,
        },
    }
}

/// Resolves an image element's source reference into its payload.
///
/// A data URL is decoded and dispatched on its declared media type,
/// with `text/plain` falling back to byte sniffing. Any other
/// reference names a file; its bytes, read by the surrounding system,
/// arrive in `file_data` (`None` when the file does not exist or
/// cannot be read) and are classified by extension and leading bytes.
/// `element_id` only names the element in diagnostics.
pub fn get_href_data(element_id: &str, href: &str, file_data: Option<&Vec<u8>>, opt: &Options)
    -> (r: Option<ImageKind>)
    ensures
        matches_href_kind(
            r,
            href@,
            href.spec_bytes(),
            match file_data {
                Some(v) => Some(v@),
                None => None,
            },
        ),
{
    match parse_data_url(href) {
        Some(Some(parts)) => {
            let (t, st, data) = parts;
            if str_eq(t.as_str(), "image") && (str_eq(st.as_str(), "jpg") || str_eq(
                st.as_str(),
                "jpeg",
            )) {
                Some(ImageKind::JPEG(data))
            } else if str_eq(t.as_str(), "image") && str_eq(st.as_str(), "png") {
                Some(ImageKind::PNG(data))
            } else if str_eq(t.as_str(), "image") && str_eq(st.as_str(), "svg+xml") {
                Some(ImageKind::SVG(data, opt.clone()))
            } else if str_eq(t.as_str(), "text") && str_eq(st.as_str(), "plain") {
                match get_image_data_format(data.as_slice()) {
                    Some(ImageFormat::JPEG) => Some(ImageKind::JPEG(data)),
                    Some(ImageFormat::PNG) => Some(ImageKind::PNG(data)),
                    _ => Some(ImageKind::SVG(data, opt.clone())),
                }
            } else {
                None
            }
        },
        Some(None) => None,
        None => {
            match file_data {
                Some(data) => {
                    match get_image_file_format(href, data.as_slice()) {
                        Some(ImageFormat::JPEG) => Some(ImageKind::JPEG(data.clone())),
                        Some(ImageFormat::PNG) => Some(ImageKind::PNG(data.clone())),
                        Some(ImageFormat::SVG) => Some(ImageKind::SVG(data.clone(), opt.clone())),
                        None => None,
                    }
                },
                None => None,
            }
        },
    }
}

/// Byte sniffing is independent of the declared media type: a
/// `text/plain` payload that starts with the PNG signature is always
/// classified as PNG content.
pub proof fn lemma_sniff_beats_media_type(
    r: Option<ImageKind>,
    href: Seq<char>,
    href_bytes: Seq<u8>,
    file_data: Option<Seq<u8>>,
    t: Seq<char>,
    st: Seq<char>,
    d: Seq<u8>,
)
    requires
        matches_href_kind(r, href, href_bytes, file_data),
        data_url_parts(href) == Some(Some((t, st, d))),
        t == "text"@,
        st == "plain"@,
        starts_with_spec(d, png_magic()),
    ensures
        r matches Some(k) && k matches ImageKind::PNG(v) && v@ == d,
{
    reveal_strlit("text");
    reveal_strlit("image");
    assert("text"@.len() == 4);
    assert("image"@.len() == 5);
}

/// Converts an image source element into an image node under `parent`.
///
/// The element is skipped, leaving the tree unchanged, when its
/// rectangle is not positive, when it lacks a reference, or when the
/// reference does not resolve; otherwise exactly one image node
/// carrying the resolved payload is appended.
pub fn convert(
    elem: &Element,
    opt: &Options,
    file_data: Option<&Vec<u8>>,
    tree: &mut Tree,
    parent: usize,
)
    requires
        old(tree).wf(),
        (parent as int) < old(tree).len(),
        old(tree).len() < usize::MAX,
    ensures
        final(tree).wf(),
        ({
            let fd = match file_data {
                Some(v) => Some(v@),
                None => None,
            };
            let ok = elem.width > 0 && elem.height > 0 && (match elem.href {
                Some(h) => href_resolves_full(h@, vstd::utf8::encode_utf8(h@), fd),
                None => false,
            });
            if !ok {
                *final(tree) == *old(tree)
            } else {
                &&& final(tree).len() == old(tree).len() + 1
                &&& final(tree).children_of(parent as int) == old(tree).children_of(
                    parent as int,
                ).push((old(tree).len() as usize))
                &&& final(tree).kind_of(old(tree).len()) matches NodeKind::Image(img) && {
                    &&& img.id@ == elem.id@
                    &&& img.transform@ == crate::geom::tidentity()
                    &&& img.visibility == (match elem.visibility {
                        Some(v) => v,
                        None => Visibility::Visible,
                    })
                    &&& img.rendering_mode == (match elem.rendering_mode {
                        Some(m) => m,
                        None => opt.image_rendering,
                    })
                    &&& img.view_box.rect == (Rect {
                        x: elem.x,
                        y: elem.y,
                        width: elem.width,
                        height: elem.height,
                    })
                    &&& img.view_box.aspect == (match elem.aspect {
                        Some(a) => a,
                        None => crate::geom::AspectRatio {
                            defer: false,
                            align: crate::geom::Align::XMidYMid,
                            slice: false,
                        },
                    })
                    &&& (match elem.href {
                        Some(h) => matches_href_kind(Some(img.kind), h@, vstd::utf8::encode_utf8(h@), fd),
                        None => false,
                    })
                }
            }
        }),
{
    let visibility = match elem.visibility {
        Some(v) => v,
        None => Visibility::default(),
    };
    let rendering_mode = match elem.rendering_mode {
        Some(m) => m,
        None => opt.image_rendering,
    };
    let rect = match Rect::new(elem.x, elem.y, elem.width, elem.height) {
        Some(rect) => rect,
        None => {
            return ;
        },
    };
    let aspect = match elem.aspect {
        Some(a) => a,
        None => crate::geom::AspectRatio::default(),
    };
    let view_box = ViewBox { rect, aspect };
    let href = match &elem.href {
        Some(h) => h,
        None => {
            return ;
        },
    };
    let kind = match get_href_data(elem.id.as_str(), href.as_str(), file_data, opt) {
        Some(k) => k,
        None => {
            return ;
        },
    };
    let image = Image {
        id: elem.id.clone(),
        transform: Transform::default(),
        visibility,
        view_box,
        rendering_mode,
        kind,
    };
    tree.append_kind(parent, NodeKind::Image(image));
}


/// Where an image of natural size `img_size` lands inside `view_box`:
/// the fitted size, anchored in the view rectangle by the alignment
/// rule.
pub open spec fn image_rect_spec(view_box: ViewBox, img_size: ScreenSize) -> Rect {
    let ns = fit_view_box_spec(img_size, view_box);
    let pos = aligned_pos_spec(
        view_box.aspect.align,
        view_box.rect.x as int,
        view_box.rect.y as int,
        view_box.rect.width - ns.width,
        view_box.rect.height - ns.height,
    );
    Rect {
        x: pos.0 as i64,
        y: pos.1 as i64,
        width: ns.width as i64,
        height: ns.height as i64,
    }
}

/// Calculates an image's placement rectangle for the provided view box.
pub fn image_rect(view_box: &ViewBox, img_size: ScreenSize) -> (r: Rect)
    requires
        img_size.valid(),
        view_box.rect.valid(),
        view_box.rect.bounded(),
    ensures
        r == image_rect_spec(*view_box, img_size),
        r.valid(),
{
    let new_size = img_size.fit_view_box(view_box);
    let pos = aligned_pos(
        view_box.aspect.align,
        view_box.rect.x,
        view_box.rect.y,
        view_box.rect.width - (new_size.width as i64),
        view_box.rect.height - (new_size.height as i64),
    );
    Rect { x: pos.0, y: pos.1, width: new_size.width as i64, height: new_size.height as i64 }
}

/// The clip rectangle that drawing an image must respect: under a
/// `slice` aspect rule the view rectangle itself, otherwise none.
pub fn view_box_clip(view_box: &ViewBox) -> (r: Option<Rect>)
    ensures
        r == if view_box.aspect.slice {
            Some(view_box.rect)
        } else {
            Option::<Rect>::None
        },
{
    if view_box.aspect.slice {
        Some(view_box.rect)
    } else {
        None
    }
}

/// Under a `slice` aspect rule the placement rectangle covers the
/// whole view rectangle, so clipping to the view rectangle bounds the
/// rendered output exactly by it.
pub proof fn lemma_slice_placement_covers(view_box: ViewBox, img_size: ScreenSize)
    requires
        img_size.valid(),
        view_box.rect.valid(),
        view_box.rect.bounded(),
        view_box.aspect.slice,
    ensures
        ({
            let r = image_rect_spec(view_box, img_size);
            &&& r.x <= view_box.rect.x
            &&& r.y <= view_box.rect.y
            &&& r.x + r.width >= view_box.rect.x + view_box.rect.width
            &&& r.y + r.height >= view_box.rect.y + view_box.rect.height
        }),
{
    let rect = view_box.rect;
    let ns = fit_view_box_spec(img_size, view_box);
    if view_box.aspect.align is NoAlign {
        assert(ns.width == rect.width && ns.height == rect.height);
    } else {
        let s2 = ScreenSize { width: rect.width as u32, height: rect.height as u32 };
        let a1 = s2.height as int * img_size.width as int;
        let b1 = img_size.height as int;
        let a2 = s2.width as int * img_size.height as int;
        let b2 = img_size.width as int;
        let rw = crate::geom::cap_u32(crate::geom::ceil_div(a1, b1));
        lemma_ceil_div_lower(a1, b1);
        lemma_ceil_div_lower(a2, b2);
        if rw <= s2.width as int {
            // uniform cover: the height grows at least to the rectangle
            assert(crate::geom::ceil_div(a1, b1) <= s2.width as int);
            assert(b1 * crate::geom::ceil_div(a1, b1) >= a1);
            assert(b1 * crate::geom::ceil_div(a1, b1) <= b1 * (s2.width as int)) by (
            nonlinear_arith)
                requires
                    crate::geom::ceil_div(a1, b1) <= s2.width as int,
                    b1 > 0,
            ;
            assert(a2 >= a1 * 1) by (nonlinear_arith)
                requires
                    a2 == (s2.width as int) * b1 * 1 && a1 <= b1 * (s2.width as int),
            ;
            let rh = crate::geom::ceil_div(a2, b2);
            assert(b2 * rh >= a2);
            assert(a2 * 1 >= (s2.height as int) * b2) by (nonlinear_arith)
                requires
                    a2 == (s2.width as int) * b1,
                    a1 == (s2.height as int) * b2,
                    a2 >= a1,
            ;
            assert(rh >= s2.height as int) by (nonlinear_arith)
                requires
                    b2 * rh >= a2,
                    a2 >= (s2.height as int) * b2,
                    b2 > 0,
            ;
        }
    }
    let wl = rect.width - ns.width;
    let hl = rect.height - ns.height;
    assert(wl <= 0 && hl <= 0);
    lemma_half_nonpos(wl as int);
    lemma_half_nonpos(hl as int);
}

proof fn lemma_ceil_div_lower(a: int, b: int)
    requires
        a >= 0,
        b > 0,
    ensures
        b * crate::geom::ceil_div(a, b) >= a,
        crate::geom::ceil_div(a, b) >= 0,
{
    let q = (a + b - 1) / b;
    vstd::arithmetic::div_mod::lemma_fundamental_div_mod(a + b - 1, b);
    vstd::arithmetic::div_mod::lemma_mod_bound(a + b - 1, b);
    assert(a + b - 1 == b * q + (a + b - 1) % b);
    vstd::arithmetic::div_mod::lemma_div_is_ordered(0, a + b - 1, b);
}

proof fn lemma_half_nonpos(v: int)
    requires
        v <= 0,
    ensures
        v <= crate::geom::half(v) <= 0,
{
    if v < 0 {
        assert(0 <= (-v) / 2 <= -v);
    }
}

/// A decoded raster image: its pixel size and its channel data.
#[derive(Clone, PartialEq, Debug)]
pub struct RasterImage {
    /// Pixel dimensions.
    pub size: ScreenSize,
    /// Channel data.
    pub data: ImageData,
}

/// A raster image data kind.
#[derive(Clone, PartialEq, Debug)]
pub enum ImageData {
    RGB(Vec<u8>),
    RGBA(Vec<u8>),
}

/// The big-endian value of four bytes.
pub open spec fn be_u32(b: Seq<u8>) -> int {
    (b[0] as int) * 0x1000000 + (b[1] as int) * 0x10000 + (b[2] as int) * 0x100 + (b[3] as int)
}

/// What parsing a raw pixel buffer yields: a four-byte big-endian
/// width and height, followed by exactly `width * height` RGBA pixels;
/// anything shorter, or a zero dimension, is rejected.
pub open spec fn read_raw_spec(data: Seq<u8>) -> Option<(int, int, Seq<u8>)> {
    if data.len() < 8 {
        None
    } else {
        let w = be_u32(data.take(4));
        let h = be_u32(data.subrange(4, 8));
        if w == 0 || h == 0 {
            None
        } else if data.len() - 8 < w * h * 4 {
            None
        } else {
            Some((w, h, data.subrange(8, 8 + w * h * 4)))
        }
    }
}

/// Parses a raw pre-decoded pixel buffer.
#[verifier::loop_isolation(false)]
pub fn read_raw(data: &[u8]) -> (r: Option<RasterImage>)
    ensures
        match r {
            Some(img) => read_raw_spec(data@) matches Some((w, h, px)) && ({
                &&& img.size.width as int == w
                &&& img.size.height as int == h
                &&& img.data matches ImageData::RGBA(v) && v@ == px
            }),
            None => read_raw_spec(data@) is None,
        },
{
    broadcast use vstd::seq_lib::group_seq_properties;

    if data.len() < 8 {
        return None;
    }
    let w: u32 = (data[0] as u32) * 0x1000000 + (data[1] as u32) * 0x10000 + (data[2] as u32)
        * 0x100 + (data[3] as u32);
    let h: u32 = (data[4] as u32) * 0x1000000 + (data[5] as u32) * 0x10000 + (data[6] as u32)
        * 0x100 + (data[7] as u32);
    proof {
        assert(data@.take(4)[0] == data@[0]);
        assert(data@.take(4)[1] == data@[1]);
        assert(data@.take(4)[2] == data@[2]);
        assert(data@.take(4)[3] == data@[3]);
        assert(data@.subrange(4, 8)[0] == data@[4]);
        assert(data@.subrange(4, 8)[1] == data@[5]);
        assert(data@.subrange(4, 8)[2] == data@[6]);
        assert(data@.subrange(4, 8)[3] == data@[7]);
    }
    if w == 0 || h == 0 {
        return None;
    }
    proof {
        crate::geom::lemma_mul_bound(w as int, h as int, u32::MAX as int, u32::MAX as int);
    }
    let need: u64 = (w as u64) * (h as u64);
    let avail: u64 = (data.len() - 8) as u64;
    proof {
        vstd::arithmetic::div_mod::lemma_fundamental_div_mod(avail as int, 4);
        vstd::arithmetic::div_mod::lemma_mod_bound(avail as int, 4);
        assert((w as int) * (h as int) == need) by (nonlinear_arith)
            requires
                need == (w as u64) * (h as u64),
                w <= u32::MAX,
                h <= u32::MAX,
        ;
    }
    if need > avail / 4 {
        proof {
            assert(need * 4 > avail) by (nonlinear_arith)
                requires
                    need > avail as int / 4,
                    avail as int == 4 * (avail as int / 4) + (avail as int) % 4,
                    0 <= (avail as int) % 4 < 4,
            ;
        }
        return None;
    }
    proof {
        assert(need * 4 <= avail) by (nonlinear_arith)
            requires
                need <= avail as int / 4,
                avail as int == 4 * (avail as int / 4) + (avail as int) % 4,
                0 <= (avail as int) % 4 < 4,
        ;
    }
    let total: usize = ((need * 4) as usize);
    let mut out: Vec<u8> = Vec::new();
    let mut i: usize = 0;
    while i < total
        invariant
            out@ =~= data@.subrange(8, 8 + i as int),
            0 <= i <= total,
        decreases total - i,
    {
        out.push(data[8 + i]);
        proof {
            assert(out@ =~= data@.subrange(8, 8 + i as int + 1));
        }
        i = i + 1;
    }
    let size = ScreenSize { width: w, height: h };
    proof {
        assert(out@ =~= data@.subrange(8, 8 + (w as int) * (h as int) * 4));
    }
    Some(RasterImage { size, data: ImageData::RGBA(out) })
}

/// The color layout of decoded PNG samples.
#[derive(Clone, Copy, PartialEq, Eq, Structural, Debug)]
pub enum PngColor {
    Gray,
    GrayAlpha,
    Rgb,
    Rgba,
    Indexed,
}

/// What decoding a PNG buffer yields, as a function of the bytes
/// alone: the dimensions, the sample layout, the bit depth per sample
/// and the raw decoded samples; or nothing when the bytes do not
/// decode.
pub uninterp spec fn png_decoded(data: Seq<u8>) -> Option<(u32, u32, PngColor, u8, Seq<u8>)>;

/// Relies on `png::Decoder`, `Reader::next_frame` and
/// `Reader::output_color_type`: decoding a PNG buffer depends on the
/// bytes alone; this crate names the outcome [`png_decoded`].
#[verifier::external_body]
fn decode_png(data: &[u8]) -> (r: Option<(u32, u32, PngColor, u8, Vec<u8>)>)
    ensures
        match r {
            Some(p) => png_decoded(data@) == Some((p.0, p.1, p.2, p.3, p.4@)),
            None => png_decoded(data@) is None,
        },
{
    let decoder = png::Decoder::new(std::io::Cursor::new(data));
    let mut reader = decoder.read_info().ok()?;
    let size = reader.output_buffer_size()?;
    let mut buf = vec![0u8; size];
    reader.next_frame(&mut buf).ok()?;
    let (color, depth) = reader.output_color_type();
    let c = match color {
        png::ColorType::Grayscale => PngColor::Gray,
        png::ColorType::GrayscaleAlpha => PngColor::GrayAlpha,
        png::ColorType::Rgb => PngColor::Rgb,
        png::ColorType::Rgba => PngColor::Rgba,
        png::ColorType::Indexed => PngColor::Indexed,
    };
    Some((reader.info().width, reader.info().height, c, depth as u8, buf))
}

/// Each gray sample expanded to an opaque-free RGB triple.
pub open spec fn expand_gray(s: Seq<u8>) -> Seq<u8>
    decreases s.len(),
{
    if s.len() == 0 {
        Seq::empty()
    } else {
        expand_gray(s.drop_last()) + seq![s.last(), s.last(), s.last()]
    }
}

/// Each gray-plus-alpha sample pair expanded to an RGBA quadruple.
pub open spec fn expand_gray_alpha(s: Seq<u8>) -> Seq<u8>
    decreases s.len(),
{
    if s.len() < 2 {
        Seq::empty()
    } else {
        expand_gray_alpha(s.take(s.len() - 2)) + seq![
            s[s.len() - 2],
            s[s.len() - 2],
            s[s.len() - 2],
            s[s.len() - 1],
        ]
    }
}

/// Exec counterpart of [`expand_gray`].
#[verifier::loop_isolation(false)]
fn expand_gray_exec(s: &Vec<u8>) -> (r: Vec<u8>)
    ensures
        r@ == expand_gray(s@),
{
    broadcast use vstd::seq_lib::group_seq_properties;

    let n = s.len();
    let mut out: Vec<u8> = Vec::new();
    let mut k: usize = 0;
    while k < n
        invariant
            0 <= k <= n,
            out@ =~= expand_gray(s@.take(k as int)),
        decreases n - k,
    {
        let g = s[k];
        out.push(g);
        out.push(g);
        out.push(g);
        proof {
            assert(s@.take(k as int + 1).drop_last() =~= s@.take(k as int));
            assert(s@.take(k as int + 1).last() == s@[k as int]);
            assert(out@ =~= expand_gray(s@.take(k as int + 1)));
        }
        k = k + 1;
    }
    proof {
        assert(s@.take(n as int) =~= s@);
    }
    out
}

/// Exec counterpart of [`expand_gray_alpha`]; the input length must be
/// even.
#[verifier::loop_isolation(false)]
fn expand_gray_alpha_exec(s: &Vec<u8>) -> (r: Vec<u8>)
    requires
        s@.len() % 2 == 0,
    ensures
        r@ == expand_gray_alpha(s@),
{
    broadcast use vstd::seq_lib::group_seq_properties;

    let n = s.len();
    let mut out: Vec<u8> = Vec::new();
    let mut k: usize = 0;
    while n - k >= 2
        invariant
            0 <= k <= n,
            k % 2 == 0,
            out@ =~= expand_gray_alpha(s@.take(k as int)),
        decreases n - k,
    {
        let g = s[k];
        let a = s[k + 1];
        out.push(g);
        out.push(g);
        out.push(g);
        out.push(a);
        proof {
            assert(s@.take(k as int + 2).take(k as int) =~= s@.take(k as int));
            assert(s@.take(k as int + 2)[k as int] == s@[k as int]);
            assert(s@.take(k as int + 2)[k as int + 1] == s@[k as int + 1]);
            assert(out@ =~= expand_gray_alpha(s@.take(k as int + 2)));
        }
        k = k + 2;
    }
    proof {
        assert(k == n);
        assert(s@.take(n as int) =~= s@);
    }
    out
}

/// Decodes and normalizes PNG bytes: 8-bit RGB and RGBA pass through,
/// 8-bit grayscale layouts are expanded to the RGB or RGBA layout,
/// everything else is unsupported.
pub fn read_png(data: &[u8]) -> (r: Option<RasterImage>)
    ensures
        match png_decoded(data@) {
            None => r is None,
            Some((w, h, c, d, buf)) => {
                if w == 0 || h == 0 || d != 8 {
                    r is None
                } else {
                    match c {
                        PngColor::Rgb => if buf.len() == 3 * (w as int) * (h as int) {
                            ({
                            &&& r matches Some(img)
                            &&& img matches RasterImage { size: isz, data: idata }
                            &&& isz == (ScreenSize { width: w, height: h })
                            &&& idata matches ImageData::RGB(v) && v@ == buf
                        })
                        } else {
                            r is None
                        },
                        PngColor::Rgba => if buf.len() == 4 * (w as int) * (h as int) {
                            ({
                            &&& r matches Some(img)
                            &&& img matches RasterImage { size: isz, data: idata }
                            &&& isz == (ScreenSize { width: w, height: h })
                            &&& idata matches ImageData::RGBA(v) && v@ == buf
                        })
                        } else {
                            r is None
                        },
                        PngColor::Gray => if buf.len() == (w as int) * (h as int) {
                            ({
                            &&& r matches Some(img)
                            &&& img matches RasterImage { size: isz, data: idata }
                            &&& isz == (ScreenSize { width: w, height: h })
                            &&& idata matches ImageData::RGB(v) && v@ == expand_gray(buf)
                        })
                        } else {
                            r is None
                        },
                        PngColor::GrayAlpha => if buf.len() == 2 * (w as int) * (h as int) {
                            ({
                            &&& r matches Some(img)
                            &&& img matches RasterImage { size: isz, data: idata }
                            &&& isz == (ScreenSize { width: w, height: h })
                            &&& idata matches ImageData::RGBA(v) && v@ == expand_gray_alpha(buf)
                        })
                        } else {
                            r is None
                        },
                        PngColor::Indexed => r is None,
                    }
                }
            },
        },
{
    let decoded = decode_png(data);
    match decoded {
        None => None,
        Some(p) => {
            let (w, h, c, d, buf) = p;
            if w == 0 || h == 0 || d != 8 {
                return None;
            }
            let size = ScreenSize { width: w, height: h };
            proof {
                crate::geom::lemma_mul_bound(w as int, h as int, u32::MAX as int, u32::MAX as int);
            }
            let wh: u128 = (w as u128) * (h as u128);
            let blen: u128 = buf.len() as u128;
            proof {
                let wi = w as int;
                let hi = h as int;
                assert(wh == wi * hi);
                assert(blen == buf@.len());
                assert(2 * (wi * hi) == 2 * wi * hi) by (nonlinear_arith);
                assert(3 * (wi * hi) == 3 * wi * hi) by (nonlinear_arith);
                assert(4 * (wi * hi) == 4 * wi * hi) by (nonlinear_arith);
            }
            match c {
                PngColor::Rgb => {
                    if blen == 3 * wh {
                        Some(RasterImage { size, data: ImageData::RGB(buf) })
                    } else {
                        None
                    }
                },
                PngColor::Rgba => {
                    if blen == 4 * wh {
                        Some(RasterImage { size, data: ImageData::RGBA(buf) })
                    } else {
                        None
                    }
                },
                PngColor::Gray => {
                    if blen == wh {
                        Some(RasterImage { size, data: ImageData::RGB(expand_gray_exec(&buf)) })
                    } else {
                        None
                    }
                },
                PngColor::GrayAlpha => {
                    if blen == 2 * wh {
                        Some(
                            RasterImage {
                                size,
                                data: ImageData::RGBA(expand_gray_alpha_exec(&buf)),
                            },
                        )
                    } else {
                        None
                    }
                },
                PngColor::Indexed => None,
            }
        },
    }
}

/// The pixel layout of decoded JPEG samples.
#[derive(Clone, Copy, PartialEq, Eq, Structural, Debug)]
pub enum JpegFormat {
    L8,
    L16,
    Rgb24,
    Cmyk32,
}

/// What decoding a JPEG buffer yields, as a function of the bytes
/// alone: the dimensions, the pixel format and the decoded samples; or
/// nothing when the bytes do not decode.
pub uninterp spec fn jpeg_decoded(data: Seq<u8>) -> Option<(u16, u16, JpegFormat, Seq<u8>)>;

/// Relies on `jpeg_decoder::Decoder::decode` and `Decoder::info`:
/// decoding a JPEG buffer depends on the bytes alone; this crate names
/// the outcome [`jpeg_decoded`].
#[verifier::external_body]
fn decode_jpeg(data: &[u8]) -> (r: Option<(u16, u16, JpegFormat, Vec<u8>)>)
    ensures
        match r {
            Some(p) => jpeg_decoded(data@) == Some((p.0, p.1, p.2, p.3@)),
            None => jpeg_decoded(data@) is None,
        },
{
    let mut decoder = jpeg_decoder::Decoder::new(data);
    let pixels = decoder.decode().ok()?;
    let info = decoder.info()?;
    let f = match info.pixel_format {
        jpeg_decoder::PixelFormat::L8 => JpegFormat::L8,
        jpeg_decoder::PixelFormat::L16 => JpegFormat::L16,
        jpeg_decoder::PixelFormat::RGB24 => JpegFormat::Rgb24,
        jpeg_decoder::PixelFormat::CMYK32 => JpegFormat::Cmyk32,
    };
    Some((info.width, info.height, f, pixels))
}

/// Decodes and normalizes JPEG bytes: RGB passes through, 8-bit
/// grayscale is expanded to RGB, everything else is unsupported.
pub fn read_jpeg(data: &[u8]) -> (r: Option<RasterImage>)
    ensures
        match jpeg_decoded(data@) {
            None => r is None,
            Some((w, h, f, buf)) => {
                if w == 0 || h == 0 {
                    r is None
                } else {
                    match f {
                        JpegFormat::Rgb24 => if buf.len() == 3 * (w as int) * (h as int) {
                            ({
                            &&& r matches Some(img)
                            &&& img matches RasterImage { size: isz, data: idata }
                            &&& isz == (ScreenSize { width: w as u32, height: h as u32 })
                            &&& idata matches ImageData::RGB(v) && v@ == buf
                        })
                        } else {
                            r is None
                        },
                        JpegFormat::L8 => if buf.len() == (w as int) * (h as int) {
                            ({
                            &&& r matches Some(img)
                            &&& img matches RasterImage { size: isz, data: idata }
                            &&& isz == (ScreenSize { width: w as u32, height: h as u32 })
                            &&& idata matches ImageData::RGB(v) && v@ == expand_gray(buf)
                        })
                        } else {
                            r is None
                        },
                        _ => r is None,
                    }
                }
            },
        },
{
    let decoded = decode_jpeg(data);
    match decoded {
        None => None,
        Some(p) => {
            let (w, h, f, buf) = p;
            if w == 0 || h == 0 {
                return None;
            }
            let size = ScreenSize { width: w as u32, height: h as u32 };
            proof {
                crate::geom::lemma_mul_bound(w as int, h as int, u16::MAX as int, u16::MAX as int);
            }
            let wh: u64 = (w as u64) * (h as u64);
            let blen: u64 = buf.len() as u64;
            proof {
                let wi = w as int;
                let hi = h as int;
                assert(wh == wi * hi);
                assert(blen == buf@.len());
                assert(2 * (wi * hi) == 2 * wi * hi) by (nonlinear_arith);
                assert(3 * (wi * hi) == 3 * wi * hi) by (nonlinear_arith);
                assert(4 * (wi * hi) == 4 * wi * hi) by (nonlinear_arith);
            }
            match f {
                JpegFormat::Rgb24 => {
                    if blen == 3 * wh {
                        Some(RasterImage { size, data: ImageData::RGB(buf) })
                    } else {
                        None
                    }
                },
                JpegFormat::L8 => {
                    if blen == wh {
                        Some(RasterImage { size, data: ImageData::RGB(expand_gray_exec(&buf)) })
                    } else {
                        None
                    }
                },
                _ => None,
            }
        },
    }
}

/// Each RGB triple extended with an opaque alpha byte; trailing bytes
/// short of a full triple are dropped.
pub open spec fn rgb_to_rgba(s: Seq<u8>) -> Seq<u8>
    decreases s.len(),
{
    if s.len() < 3 {
        Seq::empty()
    } else {
        seq![s[0], s[1], s[2], 255u8] + rgb_to_rgba(s.skip(3))
    }
}

/// The pixels with their color channels scaled by their alpha channel,
/// as the drawing surface's compositing contract requires.
pub uninterp spec fn premultiplied(s: Seq<u8>) -> Seq<u8>;

/// Relies on `svgfilters::multiply_alpha`: scales each RGBA pixel's
/// color channels by its alpha, in place, as a function of the bytes
/// alone; this crate names the outcome [`premultiplied`]. The length
/// and the alpha bytes stay as they were.
#[verifier::external_body]
fn multiply_alpha(data: &mut Vec<u8>)
    requires
        old(data)@.len() % 4 == 0,
    ensures
        final(data)@ == premultiplied(old(data)@),
        final(data)@.len() == old(data)@.len(),
        forall|j: int|
            0 <= j < old(data)@.len() && j % 4 == 3 ==> final(data)@[j] == old(data)@[j],
{
    svgfilters::multiply_alpha(data.as_mut_slice().as_rgba_mut());
}

/// Exec counterpart of [`rgb_to_rgba`].
#[verifier::loop_isolation(false)]
#[verifier::rlimit(50)]
fn rgb_to_rgba_exec(v: &Vec<u8>) -> (r: Vec<u8>)
    ensures
        r@ == rgb_to_rgba(v@),
{
    broadcast use vstd::seq_lib::group_seq_properties;

    let n = v.len();
    let mut out: Vec<u8> = Vec::new();
    let mut k: usize = 0;
    while n - k >= 3
        invariant
            0 <= k <= n,
            out@ + rgb_to_rgba(v@.skip(k as int)) == rgb_to_rgba(v@),
        decreases n - k,
    {
        out.push(v[k]);
        out.push(v[k + 1]);
        out.push(v[k + 2]);
        out.push(255);
        proof {
            assert(v@.skip(k as int).skip(3) =~= v@.skip(k as int + 3));
            assert(v@.skip(k as int)[0] == v@[k as int]);
            assert(v@.skip(k as int)[1] == v@[k as int + 1]);
            assert(v@.skip(k as int)[2] == v@[k as int + 2]);
            assert(out@ + rgb_to_rgba(v@.skip(k as int + 3)) =~= rgb_to_rgba(v@));
        }
        k = k + 3;
    }
    proof {
        assert(rgb_to_rgba(v@.skip(k as int)) =~= Seq::<u8>::empty());
        assert(out@ =~= rgb_to_rgba(v@));
    }
    out
}

/// Byte-for-byte copy of a buffer.
#[verifier::loop_isolation(false)]
fn copy_bytes(v: &Vec<u8>) -> (r: Vec<u8>)
    ensures
        r@ == v@,
{
    broadcast use vstd::seq_lib::group_seq_properties;

    let n = v.len();
    let mut out: Vec<u8> = Vec::new();
    let mut k: usize = 0;
    while k < n
        invariant
            0 <= k <= n,
            out@ =~= v@.take(k as int),
        decreases n - k,
    {
        out.push(v[k]);
        proof {
            assert(out@ =~= v@.take(k as int + 1));
        }
        k = k + 1;
    }
    proof {
        assert(out@ =~= v@);
    }
    out
}

/// Fills a pixel buffer from a decoded image: RGB sources get an
/// implicit opaque alpha channel; RGBA sources are premultiplied
/// before they are handed to the drawing surface.
pub fn image_to_pixmap(image: &RasterImage, pixmap: &mut Vec<u8>)
    requires
        image.data matches ImageData::RGBA(v) ==> v@.len() % 4 == 0,
    ensures
        final(pixmap)@ == match image.data {
            ImageData::RGB(v) => rgb_to_rgba(v@),
            ImageData::RGBA(v) => premultiplied(v@),
        },
{
    match &image.data {
        ImageData::RGB(v) => {
            *pixmap = rgb_to_rgba_exec(v);
        },
        ImageData::RGBA(v) => {
            let mut out = copy_bytes(v);
            multiply_alpha(&mut out);
            *pixmap = out;
        },
    }
}

} // verus!
