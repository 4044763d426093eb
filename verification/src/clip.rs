//! Clip-path resolution: turns a reference to a clip-path element into
//! a resolved, deduplicated resource in the tree's registry, following
//! chained clip paths, memoizing by id and surviving reference cycles.

use vstd::prelude::*;

use crate::svgtree::{Document, ETag};
use crate::tree::{ClipPath, NodeKind, Tree};
use crate::Units;

verus! {

/// Number of marked entries.
pub open spec fn count_marked(v: Seq<bool>) -> int
    decreases v.len(),
{
    if v.len() == 0 {
        0
    } else {
        count_marked(v.drop_last()) + if v.last() {
            1int
        } else {
            0int
        }
    }
}

proof fn lemma_count_marked_bounds(v: Seq<bool>)
    ensures
        0 <= count_marked(v) <= v.len(),
    decreases v.len(),
{
    if v.len() > 0 {
        lemma_count_marked_bounds(v.drop_last());
    }
}

proof fn lemma_count_marked_update(v: Seq<bool>, i: int)
    requires
        0 <= i < v.len(),
        !v[i],
    ensures
        count_marked(v.update(i, true)) == count_marked(v) + 1,
    decreases v.len(),
{
    broadcast use vstd::seq_lib::group_seq_properties;

    let v1 = v.update(i, true);
    if i == v.len() - 1 {
        assert(v1.drop_last() =~= v.drop_last());
        assert(v1.last());
    } else {
        assert(v1.drop_last() =~= v.drop_last().update(i, true));
        lemma_count_marked_update(v.drop_last(), i);
        assert(v1.last() == v.last());
    }
}

/// What converting the element `i` can append to the arena at most:
/// one subtree root plus one node per child.
pub open spec fn node_budget(doc: Document, i: int) -> int {
    1 + doc.elem(i).children@.len() as int
}

pub open spec fn budget_up_to(doc: Document, v: Seq<bool>, n: int) -> int
    decreases n,
{
    if n <= 0 {
        0
    } else {
        budget_up_to(doc, v, n - 1) + if v[n - 1] {
            0int
        } else {
            node_budget(doc, n - 1)
        }
    }
}

/// How many arena slots resolution can still consume: the budgets of
/// all elements not yet visited.
pub open spec fn append_budget(doc: Document, v: Seq<bool>) -> int {
    budget_up_to(doc, v, v.len() as int)
}

proof fn lemma_budget_nonneg(doc: Document, v: Seq<bool>, n: int)
    ensures
        budget_up_to(doc, v, n) >= 0,
    decreases n,
{
    if n > 0 {
        lemma_budget_nonneg(doc, v, n - 1);
    }
}

proof fn lemma_budget_up_to_update(doc: Document, v: Seq<bool>, i: int, n: int)
    requires
        0 <= i < v.len(),
        !v[i],
        n <= v.len(),
    ensures
        budget_up_to(doc, v.update(i, true), n) == budget_up_to(doc, v, n) - if i < n {
            node_budget(doc, i)
        } else {
            0int
        },
    decreases n,
{
    if n > 0 {
        lemma_budget_up_to_update(doc, v, i, n - 1);
    }
}

/// Marking an element spends exactly its budget.
proof fn lemma_budget_update(doc: Document, v: Seq<bool>, i: int)
    requires
        0 <= i < v.len(),
        !v[i],
    ensures
        append_budget(doc, v.update(i, true)) == append_budget(doc, v) - node_budget(doc, i),
{
    lemma_budget_up_to_update(doc, v, i, v.len() as int);
}

/// The ids under which a resolved clip path is registered.
pub open spec fn reg_ids(t: Tree) -> Set<Seq<char>> {
    Set::new(
        |id: Seq<char>|
            exists|k: int|
                0 <= k < t.spec_clip_paths().len() && (#[trigger] t.spec_clip_paths()[k]).id@
                    == id,
    )
}

proof fn lemma_defs_lookup_from(t: Tree, id: Seq<char>, k: int)
    requires
        0 <= k <= t.spec_clip_paths().len(),
    ensures
        (t.first_clip_from(k, id) is Some) <==> exists|j: int|
            k <= j < t.spec_clip_paths().len() && (#[trigger] t.spec_clip_paths()[j]).id@ == id,
    decreases t.spec_clip_paths().len() - k,
{
    if k < t.spec_clip_paths().len() {
        lemma_defs_lookup_from(t, id, k + 1);
    }
}

/// The registry lookup finds an id exactly when the id set holds it.
proof fn lemma_defs_lookup(t: Tree, id: Seq<char>)
    ensures
        (t.first_clip_from(0, id) is Some) <==> reg_ids(t).contains(id),
{
    lemma_defs_lookup_from(t, id, 0);
}

/// Equal registries give equal id sets.
proof fn lemma_reg_ids_same(t1: Tree, t2: Tree)
    requires
        t1.spec_clip_paths() == t2.spec_clip_paths(),
    ensures
        reg_ids(t1) == reg_ids(t2),
{
    assert(reg_ids(t1) =~= reg_ids(t2));
}

/// Registering one resource inserts its id.
proof fn lemma_reg_ids_push(t1: Tree, t2: Tree, cp: ClipPath)
    requires
        t2.spec_clip_paths() == t1.spec_clip_paths().push(cp),
    ensures
        reg_ids(t2) == reg_ids(t1).insert(cp.id@),
{
    broadcast use vstd::seq_lib::group_seq_properties;

    assert forall|id: Seq<char>|
        reg_ids(t2).contains(id) <==> reg_ids(t1).insert(cp.id@).contains(id) by {
        let s1 = t1.spec_clip_paths();
        let s2 = t2.spec_clip_paths();
        if reg_ids(t2).contains(id) {
            let k = choose|k: int| 0 <= k < s2.len() && (#[trigger] s2[k]).id@ == id;
            if k < s1.len() {
                assert(s1[k].id@ == id);
            } else {
                assert(s2[k] == cp);
            }
        }
        if reg_ids(t1).contains(id) {
            let k = choose|k: int| 0 <= k < s1.len() && (#[trigger] s1[k]).id@ == id;
            assert(s2[k].id@ == id);
        }
        if id == cp.id@ {
            assert(s2[s1.len() as int].id@ == id);
        }
    }
    assert(reg_ids(t2) =~= reg_ids(t1).insert(cp.id@));
}

/// Whether the element has a child carrying a path payload: only such
/// children become content of a resolved clip path.
pub open spec fn has_path_child(doc: Document, i: int) -> bool {
    exists|k: int|
        0 <= k < doc.elem(i).children@.len() && doc.elem(
            (#[trigger] doc.elem(i).children@[k]) as int,
        ).path is Some
}

/// What resolution does, as a function of the document, the set of
/// already registered ids, the visiting marks and the element: the
/// returned id (or failure), the registered ids afterwards, and the
/// visiting marks afterwards.
///
/// This mirrors the resolution algorithm step by step: reject a
/// non-clip-path element or an invalid transform; return a registered
/// id at once; fail on an element already being visited (a reference
/// cycle); otherwise mark the element, resolve a linked clip path
/// first, and succeed exactly when the linked resolution (if any)
/// succeeded and a path child gives the resource content.
pub open spec fn resolve_spec(
    doc: Document,
    ids: Set<Seq<char>>,
    visiting: Seq<bool>,
    node: usize,
) -> (Option<Seq<char>>, Set<Seq<char>>, Seq<bool>)
    decreases doc.len() - count_marked(visiting),
        when doc.wf() && (node as int) < doc.len() && visiting.len() == doc.len()
        via resolve_spec_decreases
{
    let e = doc.elem(node as int);
    if !(e.tag is ClipPath) {
        (None, ids, visiting)
    } else if !e.transform_valid {
        (None, ids, visiting)
    } else if e.id@.len() > 0 && ids.contains(e.id@) {
        (Some(e.id@), ids, visiting)
    } else if visiting[node as int] {
        (None, ids, visiting)
    } else {
        let v1 = visiting.update(node as int, true);
        match e.clip_path_link {
            Some(link) => {
                let rec = resolve_spec(doc, ids, v1, link);
                if rec.0 is None {
                    (None, rec.1, rec.2)
                } else if has_path_child(doc, node as int) {
                    (Some(e.id@), rec.1.insert(e.id@), rec.2)
                } else {
                    (None, rec.1, rec.2)
                }
            },
            None => {
                if has_path_child(doc, node as int) {
                    (Some(e.id@), ids.insert(e.id@), v1)
                } else {
                    (None, ids, v1)
                }
            },
        }
    }
}

#[via_fn]
proof fn resolve_spec_decreases(
    doc: Document,
    ids: Set<Seq<char>>,
    visiting: Seq<bool>,
    node: usize,
) {
    lemma_count_marked_bounds(visiting);
    if (node as int) < visiting.len() && !visiting[node as int] {
        lemma_count_marked_update(visiting, node as int);
        lemma_count_marked_bounds(visiting.update(node as int, true));
    }
}

/// Resolves the clip-path reference `node` into the tree's resource
/// registry.
///
/// Returns the id of a usable resolved clip path, or `None` when the
/// reference is invalid; the failure is local, the referencing element
/// simply loses its clip. The visiting marks carry the "currently
/// resolving" state through the recursion and must start all false for
/// a fresh pass; marks are never cleared, so one marks buffer serves
/// one conversion pass.
#[verifier::loop_isolation(false)]
pub fn convert(doc: &Document, node: usize, tree: &mut Tree, visiting: &mut Vec<bool>) -> (r:
    Option<String>)
    requires
        doc.wf(),
        (node as int) < doc.len(),
        old(tree).wf(),
        old(tree).registry_complete(),
        old(visiting)@.len() == doc.len(),
        old(tree).len() + append_budget(*doc, old(visiting)@) <= usize::MAX,
    ensures
        final(tree).wf(),
        final(tree).registry_complete(),
        final(visiting)@.len() == old(visiting)@.len(),
        forall|i: int| 0 <= i < old(visiting)@.len() && old(visiting)@[i] ==> final(visiting)@[i],
        final(tree).len() >= old(tree).len(),
        final(tree).len() + append_budget(*doc, final(visiting)@) <= old(tree).len()
            + append_budget(*doc, old(visiting)@),
        forall|i: int|
            0 <= i < old(tree).len() ==> final(tree).kind_of(i) == old(tree).kind_of(i) && final(tree).parent_of(i) == old(tree).parent_of(i) && final(tree).children_of(i) == old(tree).children_of(i),
        forall|k: int|
            0 <= k < old(tree).spec_clip_paths().len() ==> final(tree).spec_clip_paths()[k] == old(tree).spec_clip_paths()[k],
        final(tree).spec_clip_paths().len() >= old(tree).spec_clip_paths().len(),
        final(tree).size == old(tree).size,
        final(tree).view_box == old(tree).view_box,
        ({
            let rec = resolve_spec(*doc, reg_ids(*old(tree)), old(visiting)@, node);
            &&& (match r {
                Some(s) => rec.0 == Some(s@),
                None => rec.0 is None,
            })
            &&& reg_ids(*final(tree)) == rec.1
            &&& final(visiting)@ == rec.2
        }),
        ({
            let e = doc.elem(node as int);
            let fresh = !(e.id@.len() > 0 && reg_ids(*old(tree)).contains(e.id@));
            (r is Some && fresh) ==> final(tree).spec_clip_paths().len() > 0 && {
                let cp = final(tree).spec_clip_paths().last();
                &&& cp.id@ == e.id@
                &&& cp.transform == e.transform
                &&& cp.units == (match e.units {
                    Some(u) => u,
                    None => Units::UserSpaceOnUse,
                })
                &&& (match e.clip_path_link {
                    Some(link) => cp.clip_path matches Some(cs) && Some(cs@) == resolve_spec(
                        *doc,
                        reg_ids(*old(tree)),
                        old(visiting)@.update(node as int, true),
                        link,
                    ).0,
                    None => cp.clip_path is None,
                })
                &&& final(tree).children_of(cp.root as int).len() > 0
            }
        }),
    decreases doc.len() - count_marked(visiting@),
{
    broadcast use vstd::seq_lib::group_seq_properties;

    let ghost ids0 = reg_ids(*old(tree));
    let e = &doc.elements[node];
    let is_clip = match e.tag {
        ETag::ClipPath => true,
        _ => false,
    };
    if !is_clip {
        return None;
    }
    if !e.transform_valid {
        return None;
    }
    let id = e.id.clone();
    if !id.as_str().is_empty() {
        match tree.defs_by_id(&id) {
            Some(_) => {
                proof {
                    lemma_defs_lookup(*tree, id@);
                }
                return Some(id);
            },
            None => {
                proof {
                    lemma_defs_lookup(*tree, id@);
                }
            },
        }
    }
    if visiting[node] {
        return None;
    }
    let vslot = &mut visiting[node];
    *vslot = true;
    proof {
        assert(visiting@ =~= old(visiting)@.update(node as int, true));
        lemma_count_marked_update(old(visiting)@, node as int);
        lemma_count_marked_bounds(old(visiting)@);
        lemma_count_marked_bounds(visiting@);
        lemma_budget_update(*doc, old(visiting)@, node as int);
        lemma_budget_nonneg(*doc, visiting@, visiting@.len() as int);
    }
    let ghost v1 = visiting@;
    let ghost cn = doc.elem(node as int).children@.len() as int;

    let mut link_id: Option<String> = None;
    let ghost mid_tree = *tree;
    let ghost mid_visiting = visiting@;
    match e.clip_path_link {
        Some(link) => {
            let lr = convert(doc, link, tree, visiting);
            match lr {
                None => {
                    proof {
                        lemma_budget_nonneg(*doc, visiting@, visiting@.len() as int);
                    }
                    return None;
                },
                Some(s) => {
                    link_id = Some(s);
                },
            }
        },
        None => {},
    }
    let ghost t2 = *tree;
    let ghost v2 = visiting@;
    let units = match e.units {
        Some(u) => u,
        None => Units::UserSpaceOnUse,
    };

    proof {
        lemma_budget_nonneg(*doc, v2, v2.len() as int);
    }
    let root = tree.append_detached_group();
    let cp = ClipPath {
        id: id.clone(),
        units,
        transform: e.transform,
        clip_path: link_id,
        root,
    };
    let ghost cp_ghost = cp;
    tree.register_clip_path(cp);
    proof {
        lemma_reg_ids_push(t2, *tree, cp_ghost);
    }
    let ghost t3 = *tree;

    let n = e.children.len();
    let mut appended: usize = 0;
    let mut k: usize = 0;
    while k < n
        invariant
            0 <= k <= n,
            tree.wf(),
            (root as int) < t3.len(),
            t3.len() <= tree.len(),
            tree.len() <= t3.len() + k,
            t3.len() + n + append_budget(*doc, v2) <= old(tree).len() + append_budget(
                *doc,
                old(visiting)@,
            ),
            appended as int == tree.children_of(root as int).len(),
            appended <= k,
            visiting@ == v2,
            tree.spec_clip_paths() == t3.spec_clip_paths(),
            tree.size == t3.size,
            tree.view_box == t3.view_box,
            forall|i: int|
                0 <= i < t3.len() && i != root ==> tree.kind_of(i) == t3.kind_of(i)
                    && tree.parent_of(i) == t3.parent_of(i) && tree.children_of(i)
                    == t3.children_of(i),
            tree.kind_of(root as int) == t3.kind_of(root as int),
            tree.parent_of(root as int) == t3.parent_of(root as int),
            (appended > 0) <==> exists|j: int|
                0 <= j < k && doc.elem(
                    (#[trigger] doc.elem(node as int).children@[j]) as int,
                ).path is Some,
        decreases n - k,
    {
        let c = e.children[k];
        proof {
            assert(doc.elem(node as int).children@[k as int] == c);
            assert((c as int) < doc.len());
        }
        match &doc.elements[c].path {
            Some(p) => {
                let pc = p.clone();
                proof {
                    lemma_budget_nonneg(*doc, v2, v2.len() as int);
                }
                tree.append_kind(root, NodeKind::Path(pc));
                appended = appended + 1;
            },
            None => {},
        }
        k = k + 1;
    }

    proof {
        assert(t2.registry_complete());
        assert forall|i: int|
            0 <= i < old(tree).len() implies tree.kind_of(i) == old(tree).kind_of(i)
            && tree.parent_of(i) == old(tree).parent_of(i) && tree.children_of(i) == old(
            tree,
        ).children_of(i) by {
            assert(i < t2.len());
            assert(i != root as int);
            assert(tree.kind_of(i) == t3.kind_of(i));
            assert(t3.kind_of(i) == t2.kind_of(i));
            assert(t2.kind_of(i) == old(tree).kind_of(i));
            assert(tree.children_of(i) == t3.children_of(i));
            assert(t3.children_of(i) == t2.children_of(i));
            assert(t2.children_of(i) == old(tree).children_of(i));
        }
    }
    if appended > 0 {
        proof {
            assert(has_path_child(*doc, node as int));
            assert(tree.registry_complete()) by {
                assert forall|kk: int|
                    0 <= kk < tree.spec_clip_paths().len() implies tree.children_of(
                    (#[trigger] tree.spec_clip_paths()[kk]).root as int,
                ).len() > 0 by {
                    if kk < t2.spec_clip_paths().len() {
                        assert(tree.spec_clip_paths() == t2.spec_clip_paths().push(cp_ghost));
                        assert(tree.spec_clip_paths()[kk] == t2.spec_clip_paths()[kk]);
                        assert(t2.children_of(
                            (t2.spec_clip_paths()[kk]).root as int,
                        ).len() > 0);
                        let rt = t2.spec_clip_paths()[kk].root;
                        assert(t2.wf_clip(kk));
                        assert((rt as int) < t2.len());
                        assert(rt as int != root as int);
                        assert(tree.children_of(rt as int) == t3.children_of(rt as int));
                        assert(t3.children_of(rt as int) == t2.children_of(rt as int));
                    } else {
                        assert(tree.spec_clip_paths()[kk] == cp_ghost);
                    }
                }
            }
            lemma_budget_nonneg(*doc, v2, v2.len() as int);
        }
        Some(id)
    } else {
        proof {
            assert(!has_path_child(*doc, node as int));
        }
        tree.unregister_last_clip_path();
        proof {
            assert(tree.spec_clip_paths() =~= t2.spec_clip_paths());
            lemma_reg_ids_same(*tree, t2);
            assert(tree.registry_complete()) by {
                assert forall|kk: int|
                    0 <= kk < tree.spec_clip_paths().len() implies tree.children_of(
                    (#[trigger] tree.spec_clip_paths()[kk]).root as int,
                ).len() > 0 by {
                    assert(tree.spec_clip_paths()[kk] == t2.spec_clip_paths()[kk]);
                    assert(t2.children_of((t2.spec_clip_paths()[kk]).root as int).len() > 0);
                    let rt = t2.spec_clip_paths()[kk].root;
                    assert(t2.wf_clip(kk));
                    assert((rt as int) < t2.len());
                    assert(rt as int != root as int);
                    assert(tree.children_of(rt as int) == t3.children_of(rt as int));
                    assert(t3.children_of(rt as int) == t2.children_of(rt as int));
                }
            }
            lemma_budget_nonneg(*doc, v2, v2.len() as int);
        }
        None
    }
}


/// The elements of a linked clip-path chain, the head first.
pub open spec fn chain_seq(doc: Document, node: usize, n: nat) -> Seq<usize>
    decreases n,
{
    match doc.elem(node as int).clip_path_link {
        Some(link) => if n > 0 {
            seq![node] + chain_seq(doc, link, (n - 1) as nat)
        } else {
            seq![node]
        },
        None => seq![node],
    }
}

/// A valid chain of exactly `n` links: every element is a clip-path
/// element with a valid transform, a nonempty id and content, each
/// link points one step down the chain, and no element links back to
/// an earlier one.
pub open spec fn valid_chain(doc: Document, node: usize, n: nat) -> bool
    decreases n,
{
    let e = doc.elem(node as int);
    &&& (node as int) < doc.len()
    &&& e.tag is ClipPath
    &&& e.transform_valid
    &&& e.id@.len() > 0
    &&& has_path_child(doc, node as int)
    &&& match e.clip_path_link {
        Some(link) => n > 0 && valid_chain(doc, link, (n - 1) as nat) && !chain_seq(
            doc,
            link,
            (n - 1) as nat,
        ).contains(node),
        None => n == 0,
    }
}

/// Every element of a valid chain lies inside the document.
pub proof fn lemma_chain_in_range(doc: Document, node: usize, n: nat)
    requires
        doc.wf(),
        valid_chain(doc, node, n),
    ensures
        chain_seq(doc, node, n).len() == n + 1,
        forall|j: int|
            0 <= j < chain_seq(doc, node, n).len() ==> ((#[trigger] chain_seq(
                doc,
                node,
                n,
            )[j]) as int) < doc.len(),
    decreases n,
{
    broadcast use vstd::seq_lib::group_seq_properties;

    match doc.elem(node as int).clip_path_link {
        Some(link) => {
            lemma_chain_in_range(doc, link, (n - 1) as nat);
            let chain = chain_seq(doc, node, n);
            let inner = chain_seq(doc, link, (n - 1) as nat);
            assert(chain == seq![node] + inner);
            assert forall|j: int|
                0 <= j < chain.len() implies ((#[trigger] chain[j]) as int) < doc.len() by {
                if j > 0 {
                    assert(chain[j] == inner[j - 1]);
                }
            }
        },
        None => {},
    }
}

/// Resolving the head of a valid chain of any length succeeds, and
/// afterwards every link of the chain is registered: chained clipping
/// resolves to exactly the chain of its links, and the recursion
/// terminates by construction.
pub proof fn lemma_chain_resolves(
    doc: Document,
    ids: Set<Seq<char>>,
    visiting: Seq<bool>,
    node: usize,
    n: nat,
)
    requires
        doc.wf(),
        visiting.len() == doc.len(),
        valid_chain(doc, node, n),
        forall|j: int|
            0 <= j < chain_seq(doc, node, n).len() ==> !visiting[(#[trigger] chain_seq(
                doc,
                node,
                n,
            )[j]) as int],
        forall|j: int|
            0 <= j < chain_seq(doc, node, n).len() ==> !ids.contains(
                doc.elem((#[trigger] chain_seq(doc, node, n)[j]) as int).id@,
            ),
    ensures
        ({
            let rec = resolve_spec(doc, ids, visiting, node);
            &&& rec.0 == Some(doc.elem(node as int).id@)
            &&& forall|j: int|
                0 <= j < chain_seq(doc, node, n).len() ==> rec.1.contains(
                    doc.elem((#[trigger] chain_seq(doc, node, n)[j]) as int).id@,
                )
        }),
    decreases n,
{
    broadcast use vstd::seq_lib::group_seq_properties;

    let e = doc.elem(node as int);
    let chain = chain_seq(doc, node, n);
    lemma_chain_in_range(doc, node, n);
    assert(chain[0] == node);
    assert(!visiting[node as int]);
    assert(!ids.contains(e.id@));
    let v1 = visiting.update(node as int, true);
    match e.clip_path_link {
        Some(link) => {
            let inner = chain_seq(doc, link, (n - 1) as nat);
            lemma_chain_in_range(doc, link, (n - 1) as nat);
            assert(chain == seq![node] + inner);
            assert forall|j: int| 0 <= j < inner.len() implies !v1[(#[trigger] inner[j]) as int]
                && !ids.contains(doc.elem((inner[j]) as int).id@) by {
                assert(chain[j + 1] == inner[j]);
                assert(!visiting[(chain[j + 1]) as int]);
                assert(!ids.contains(doc.elem((chain[j + 1]) as int).id@));
                assert(inner.contains(inner[j]));
                assert(inner[j] != node);
            }
            lemma_chain_resolves(doc, ids, v1, link, (n - 1) as nat);
            let rec_inner = resolve_spec(doc, ids, v1, link);
            let rec = resolve_spec(doc, ids, visiting, node);
            assert(rec.0 == Some(e.id@));
            assert(rec.1 == rec_inner.1.insert(e.id@));
            assert forall|j: int|
                0 <= j < chain.len() implies rec.1.contains(
                doc.elem((#[trigger] chain[j]) as int).id@,
            ) by {
                if j == 0 {
                } else {
                    assert(chain[j] == inner[j - 1]);
                    assert(rec_inner.1.contains(doc.elem((inner[j - 1]) as int).id@));
                }
            }
        },
        None => {
            let rec = resolve_spec(doc, ids, visiting, node);
            assert(rec.0 == Some(e.id@));
            assert(chain == seq![node]);
            assert(rec.1.contains(e.id@));
        },
    }
}

/// A clip path that references itself resolves to nothing rather than
/// looping: the visiting mark set before the link is followed stops
/// the recursion at once.
pub proof fn lemma_self_reference_fails(
    doc: Document,
    ids: Set<Seq<char>>,
    visiting: Seq<bool>,
    node: usize,
)
    requires
        doc.wf(),
        visiting.len() == doc.len(),
        (node as int) < doc.len(),
        doc.elem(node as int).clip_path_link == Some(node),
        !(doc.elem(node as int).id@.len() > 0 && ids.contains(doc.elem(node as int).id@)),
        !visiting[node as int],
    ensures
        resolve_spec(doc, ids, visiting, node).0 is None,
{
    let e = doc.elem(node as int);
    if !(e.tag is ClipPath) {
    } else if !e.transform_valid {
    } else {
        let v1 = visiting.update(node as int, true);
        assert(v1[node as int]);
        let rec_inner = resolve_spec(doc, ids, v1, node);
        assert(rec_inner.0 is None);
    }
}

} // verus!
