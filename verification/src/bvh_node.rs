use vstd::prelude::*;

verus! {

use crate::aabb::{
    aabb_contains_box, aabb_hit_s, aabb_sized, aabb_wf, pt_in_aabb, AabbV, AABB,
};
use crate::fx::T_BOUND;
use crate::hittable::{
    lemma_prim_props, prim_bbox_s, prim_hit_s,  prim_wf, HitRecV, HitRecord, Hittable,
    Primitive,
};
use crate::hittable_list::{
    all_mats_below, all_prims_wf, cur_max, lemma_multiset_to_same_elements, lemma_scan_concat,
    lemma_scan_props, lemma_scan_set_agree, same_elements, scan_hit, HittableList,
};
use crate::interval::{Interval};
use crate::ray::{ray_wf, v3_ray_at, Ray, RayV};
use vstd::seq_lib::group_seq_properties;
use vstd::seq_lib::group_to_multiset_ensures;

/// A binary spatial partition over a set of primitives, itself hittable:
/// a node holds two subtrees and a box enclosing both.
pub struct BvhNode {
    pub left: Box<BvhTree>,
    pub right: Box<BvhTree>,
    pub bbox: AABB,
}

/// A subtree: a single primitive, or a further node.
pub enum BvhTree {
    Leaf(Primitive),
    Node(BvhNode),
}

pub open spec fn tree_size(t: BvhTree) -> nat
    decreases t,
{
    match t {
        BvhTree::Leaf(_) => 1,
        BvhTree::Node(n) => 1 + tree_size(*n.left) + tree_size(*n.right),
    }
}

proof fn lemma_tree_size_pos(t: BvhTree)
    ensures
        tree_size(t) >= 1,
    decreases t,
{
    match t {
        BvhTree::Leaf(_) => {},
        BvhTree::Node(n) => {},
    }
}

/// The primitives at the leaves, left to right.
pub open spec fn tree_leaves(t: BvhTree) -> Seq<Primitive>
    decreases t,
{
    match t {
        BvhTree::Leaf(p) => seq![p],
        BvhTree::Node(n) => tree_leaves(*n.left) + tree_leaves(*n.right),
    }
}

pub open spec fn node_leaves(n: BvhNode) -> Seq<Primitive> {
    tree_leaves(*n.left) + tree_leaves(*n.right)
}

/// The box a subtree claims to fit in.
pub open spec fn tree_bbox(t: BvhTree) -> AabbV {
    match t {
        BvhTree::Leaf(p) => prim_bbox_s(p),
        BvhTree::Node(n) => n.bbox@,
    }
}

/// Structural well-formedness: every leaf is a well-formed primitive and
/// every node's box encloses the boxes of both subtrees.
pub open spec fn tree_wf(t: BvhTree) -> bool
    decreases t,
{
    match t {
        BvhTree::Leaf(p) => prim_wf(p),
        BvhTree::Node(n) => {
            &&& tree_wf(*n.left)
            &&& tree_wf(*n.right)
            &&& aabb_contains_box(n.bbox@, tree_bbox(*n.left))
            &&& aabb_contains_box(n.bbox@, tree_bbox(*n.right))
        },
    }
}

pub open spec fn node_wf(n: BvhNode) -> bool {
    tree_wf(BvhTree::Node(n))
}

/// `b` encloses the box of every primitive in the sequence.
pub open spec fn covers_all(b: AabbV, s: Seq<Primitive>) -> bool {
    forall|i: int| 0 <= i < s.len() ==> aabb_contains_box(b, prim_bbox_s(#[trigger] s[i]))
}

/// Every leaf of a well-formed subtree is a well-formed primitive whose
/// box lies inside the subtree's box.
pub proof fn lemma_tree_boxes(t: BvhTree)
    requires
        tree_wf(t),
    ensures
        all_prims_wf(tree_leaves(t)),
        covers_all(tree_bbox(t), tree_leaves(t)),
    decreases t,
{
    match t {
        BvhTree::Leaf(p) => {
            assert(tree_leaves(t) =~= seq![p]);
        },
        BvhTree::Node(n) => {
            lemma_tree_boxes(*n.left);
            lemma_tree_boxes(*n.right);
            let ll = tree_leaves(*n.left);
            let lr = tree_leaves(*n.right);
            assert forall|i: int| 0 <= i < node_leaves(n).len() implies prim_wf(
                #[trigger] node_leaves(n)[i],
            ) && aabb_contains_box(n.bbox@, prim_bbox_s(node_leaves(n)[i])) by {
                if i < ll.len() {
                    assert(node_leaves(n)[i] == ll[i]);
                } else {
                    assert(node_leaves(n)[i] == lr[i - ll.len()]);
                }
            }
        },
    }
}

/// The sort key used while building: the lower bound of the primitive's
/// box on the chosen axis.
pub open spec fn box_key_s(p: Primitive, axis: int) -> int {
    if axis == 1 {
        prim_bbox_s(p).y.min
    } else if axis == 2 {
        prim_bbox_s(p).z.min
    } else {
        prim_bbox_s(p).x.min
    }
}

fn box_key(p: &Primitive, axis: i32) -> (r: i64)
    ensures
        r as int == box_key_s(*p, axis as int),
{
    let b = p.bounding_box();
    let iv = b.axis_interval(axis);
    iv.min
}

/// The range [lo, hi) is ordered by the box key on the given axis.
pub open spec fn sorted_range(s: Seq<Primitive>, lo: int, hi: int, axis: int) -> bool {
    forall|m: int, n: int|
        lo <= m < n < hi ==> box_key_s(#[trigger] s[m], axis) <= box_key_s(#[trigger] s[n], axis)
}

/// Merge sort of the subrange [start, end) by box key, so that each
/// build level sorts in time proportional to its length times the depth:
/// the rest of the sequence is untouched and the subrange keeps its
/// multiset.
fn sort_range(objects: &mut Vec<Primitive>, start: usize, end: usize, axis: i32)
    requires
        start <= end <= old(objects).len(),
    ensures
        final(objects).len() == old(objects).len(),
        forall|k: int|
            0 <= k < old(objects).len() && !(start <= k < end) ==> final(objects)@[k] == old(
                objects,
            )@[k],
        final(objects)@.subrange(start as int, end as int).to_multiset() == old(
            objects,
        )@.subrange(start as int, end as int).to_multiset(),
        final(objects)@.to_multiset() == old(objects)@.to_multiset(),
        sorted_range(final(objects)@, start as int, end as int, axis as int),
    decreases end - start,
{
    broadcast use group_to_multiset_ensures;
    broadcast use vstd::multiset::group_multiset_axioms;
    broadcast use group_seq_properties;

    if end - start <= 1 {
        proof {
            assert(objects@.subrange(start as int, end as int) =~= old(objects)@.subrange(
                start as int,
                end as int,
            ));
            assert(objects@ =~= old(objects)@);
        }
        return ;
    }
    let mid = start + (end - start) / 2;
    let ghost orig = objects@;
    sort_range(objects, start, mid, axis);
    let ghost after_left = objects@;
    sort_range(objects, mid, end, axis);
    let ghost after_right = objects@;
    proof {
        assert(after_left.subrange(mid as int, end as int) =~= orig.subrange(
            mid as int,
            end as int,
        ));
        assert(after_right.subrange(start as int, mid as int) =~= after_left.subrange(
            start as int,
            mid as int,
        ));
        lemma_split_multiset(orig, start as int, mid as int, end as int);
        lemma_split_multiset(after_right, start as int, mid as int, end as int);
    }
    // copy the two sorted halves aside
    let mut left_buf: Vec<Primitive> = Vec::new();
    let mut k = start;
    while k < mid
        invariant
            start <= k <= mid <= end <= objects@.len(),
            objects@ == after_right,
            left_buf@ =~= after_right.subrange(start as int, k as int),
        decreases mid - k,
    {
        left_buf.push(objects[k]);
        proof {
            assert(left_buf@ =~= after_right.subrange(start as int, k as int + 1));
        }
        k = k + 1;
    }
    let mut right_buf: Vec<Primitive> = Vec::new();
    let mut k2 = mid;
    while k2 < end
        invariant
            mid <= k2 <= end <= objects@.len(),
            objects@ == after_right,
            right_buf@ =~= after_right.subrange(mid as int, k2 as int),
        decreases end - k2,
    {
        right_buf.push(objects[k2]);
        proof {
            assert(right_buf@ =~= after_right.subrange(mid as int, k2 as int + 1));
        }
        k2 = k2 + 1;
    }
    proof {
        assert(left_buf@ =~= after_right.subrange(start as int, mid as int));
        assert(right_buf@ =~= after_right.subrange(mid as int, end as int));
    }
    // merge the halves back, always taking the smaller head
    let lq = left_buf.len();
    let rq = right_buf.len();
    let mut li: usize = 0;
    let mut ri: usize = 0;
    let mut w = start;
    while li < lq || ri < rq
        invariant
            0 <= li <= lq == left_buf@.len(),
            0 <= ri <= rq == right_buf@.len(),
            w == start + li + ri,
            start + lq + rq == end,
            end <= objects@.len(),
            objects@.len() == after_right.len(),
            sorted_range(left_buf@, 0, lq as int, axis as int),
            sorted_range(right_buf@, 0, rq as int, axis as int),
            forall|k: int|
                0 <= k < objects@.len() && !(start <= k < end) ==> objects@[k]
                    == after_right[k],
            forall|k: int| (w as int) <= k < end ==> objects@[k] == after_right[k],
            objects@.subrange(start as int, w as int).to_multiset() =~= left_buf@.subrange(
                0,
                li as int,
            ).to_multiset().add(right_buf@.subrange(0, ri as int).to_multiset()),
            sorted_range(objects@, start as int, w as int, axis as int),
            forall|k: int, m: int|
                start <= k < w as int && li as int <= m < lq as int ==> box_key_s(
                    #[trigger] objects@[k],
                    axis as int,
                ) <= box_key_s(#[trigger] left_buf@[m], axis as int),
            forall|k: int, m: int|
                start <= k < w as int && ri as int <= m < rq as int ==> box_key_s(
                    #[trigger] objects@[k],
                    axis as int,
                ) <= box_key_s(#[trigger] right_buf@[m], axis as int),
        decreases lq + rq - li - ri,
    {
        let ghost before = objects@;
        let take_left = if li < lq && ri < rq {
            box_key(&left_buf[li], axis) <= box_key(&right_buf[ri], axis)
        } else {
            li < lq
        };
        if take_left {
            let x = left_buf[li];
            objects.set(w, x);
            proof {
                assert(objects@.subrange(start as int, w as int) =~= before.subrange(
                    start as int,
                    w as int,
                ));
                assert(objects@.subrange(start as int, w as int + 1) =~= before.subrange(
                    start as int,
                    w as int,
                ).push(x));
                assert(left_buf@.subrange(0, li as int + 1) =~= left_buf@.subrange(
                    0,
                    li as int,
                ).push(x));
                vstd::seq_lib::to_multiset_build(before.subrange(start as int, w as int), x);
                vstd::seq_lib::to_multiset_build(left_buf@.subrange(0, li as int), x);
                assert(before.subrange(start as int, w as int).to_multiset().insert(x)
                    =~= left_buf@.subrange(0, li as int).to_multiset().insert(x).add(
                    right_buf@.subrange(0, ri as int).to_multiset(),
                ));
                assert(objects@.subrange(start as int, w as int + 1).to_multiset()
                    =~= left_buf@.subrange(0, li as int + 1).to_multiset().add(
                    right_buf@.subrange(0, ri as int).to_multiset(),
                ));
            }
            li = li + 1;
        } else {
            let x = right_buf[ri];
            objects.set(w, x);
            proof {
                assert(objects@.subrange(start as int, w as int) =~= before.subrange(
                    start as int,
                    w as int,
                ));
                assert(objects@.subrange(start as int, w as int + 1) =~= before.subrange(
                    start as int,
                    w as int,
                ).push(x));
                assert(right_buf@.subrange(0, ri as int + 1) =~= right_buf@.subrange(
                    0,
                    ri as int,
                ).push(x));
                vstd::seq_lib::to_multiset_build(before.subrange(start as int, w as int), x);
                vstd::seq_lib::to_multiset_build(right_buf@.subrange(0, ri as int), x);
                assert(before.subrange(start as int, w as int).to_multiset().insert(x)
                    =~= left_buf@.subrange(0, li as int).to_multiset().add(
                    right_buf@.subrange(0, ri as int).to_multiset().insert(x),
                ));
                assert(objects@.subrange(start as int, w as int + 1).to_multiset()
                    =~= left_buf@.subrange(0, li as int).to_multiset().add(
                    right_buf@.subrange(0, ri as int + 1).to_multiset(),
                ));
            }
            ri = ri + 1;
        }
        w = w + 1;
    }
    proof {
        assert(left_buf@.subrange(0, lq as int) =~= left_buf@);
        assert(right_buf@.subrange(0, rq as int) =~= right_buf@);
        assert(objects@.subrange(start as int, end as int).to_multiset()
            =~= left_buf@.to_multiset().add(right_buf@.to_multiset()));
        vstd::seq_lib::lemma_multiset_commutative(
            after_right.subrange(start as int, mid as int),
            after_right.subrange(mid as int, end as int),
        );
        assert(objects@.subrange(start as int, end as int).to_multiset() == after_right.subrange(
            start as int,
            end as int,
        ).to_multiset());
        assert(objects@.subrange(start as int, end as int).to_multiset() == orig.subrange(
            start as int,
            end as int,
        ).to_multiset());
        lemma_whole_multiset_from_range(orig, objects@, start as int, end as int);
    }
}

/// A subrange's multiset splits at any interior cut.
proof fn lemma_split_multiset(s: Seq<Primitive>, a: int, b: int, c: int)
    requires
        0 <= a <= b <= c <= s.len(),
    ensures
        s.subrange(a, c).to_multiset() == s.subrange(a, b).to_multiset().add(
            s.subrange(b, c).to_multiset(),
        ),
{
    assert(s.subrange(a, c) =~= s.subrange(a, b) + s.subrange(b, c));
    vstd::seq_lib::lemma_multiset_commutative(s.subrange(a, b), s.subrange(b, c));
}

/// Two sequences that agree outside a range and have equal multisets on
/// it have equal multisets overall.
proof fn lemma_whole_multiset_from_range(s1: Seq<Primitive>, s2: Seq<Primitive>, a: int, b: int)
    requires
        s1.len() == s2.len(),
        0 <= a <= b <= s1.len(),
        forall|k: int| 0 <= k < s1.len() && !(a <= k < b) ==> s2[k] == s1[k],
        s1.subrange(a, b).to_multiset() == s2.subrange(a, b).to_multiset(),
    ensures
        s2.to_multiset() == s1.to_multiset(),
{
    broadcast use vstd::multiset::group_multiset_axioms;

    let n = s1.len() as int;
    assert(s1 =~= s1.subrange(0, a) + s1.subrange(a, b) + s1.subrange(b, n));
    assert(s2 =~= s2.subrange(0, a) + s2.subrange(a, b) + s2.subrange(b, n));
    assert(s2.subrange(0, a) =~= s1.subrange(0, a));
    assert(s2.subrange(b, n) =~= s1.subrange(b, n));
    vstd::seq_lib::lemma_multiset_commutative(s1.subrange(0, a), s1.subrange(a, b));
    vstd::seq_lib::lemma_multiset_commutative(
        s1.subrange(0, a) + s1.subrange(a, b),
        s1.subrange(b, n),
    );
    vstd::seq_lib::lemma_multiset_commutative(s2.subrange(0, a), s2.subrange(a, b));
    vstd::seq_lib::lemma_multiset_commutative(
        s2.subrange(0, a) + s2.subrange(a, b),
        s2.subrange(b, n),
    );
}

/// Primitive well-formedness carries over to any sequence holding the
/// same elements.
proof fn lemma_wf_transfer(s1: Seq<Primitive>, s2: Seq<Primitive>)
    requires
        same_elements(s1, s2),
        all_prims_wf(s2),
    ensures
        all_prims_wf(s1),
{
    assert forall|i: int| 0 <= i < s1.len() implies prim_wf(#[trigger] s1[i]) by {
        assert(s1.contains(s1[i]));
        assert(s2.contains(s1[i]));
        let j = choose|j: int| 0 <= j < s2.len() && s2[j] == s1[i];
        assert(prim_wf(s2[j]));
    }
}

/// Box coverage carries over to any sequence holding the same elements.
proof fn lemma_covers_transfer(b: AabbV, s1: Seq<Primitive>, s2: Seq<Primitive>)
    requires
        same_elements(s1, s2),
        covers_all(b, s2),
    ensures
        covers_all(b, s1),
{
    assert forall|i: int| 0 <= i < s1.len() implies aabb_contains_box(
        b,
        prim_bbox_s(#[trigger] s1[i]),
    ) by {
        assert(s1.contains(s1[i]));
        assert(s2.contains(s1[i]));
        let j = choose|j: int| 0 <= j < s2.len() && s2[j] == s1[i];
        assert(aabb_contains_box(b, prim_bbox_s(s2[j])));
    }
}

/// Element-wise equality composes over concatenation of split ranges.
proof fn lemma_same_elements_concat(
    a1: Seq<Primitive>,
    a2: Seq<Primitive>,
    b1: Seq<Primitive>,
    b2: Seq<Primitive>,
)
    requires
        same_elements(a1, b1),
        same_elements(a2, b2),
    ensures
        same_elements(a1 + a2, b1 + b2),
{
    broadcast use group_seq_properties;

    assert forall|x: Primitive| #![trigger (a1 + a2).contains(x)] #![trigger (b1 + b2).contains(x)]
        (a1 + a2).contains(x) <==> (b1 + b2).contains(x) by {
        if (a1 + a2).contains(x) {
            let i = choose|i: int| 0 <= i < (a1 + a2).len() && (a1 + a2)[i] == x;
            if i < a1.len() {
                assert(a1[i] == x);
                assert(a1.contains(x));
                assert(b1.contains(x));
                let j = choose|j: int| 0 <= j < b1.len() && b1[j] == x;
                assert((b1 + b2)[j] == x);
            } else {
                assert(a2[i - a1.len()] == x);
                assert(a2.contains(x));
                assert(b2.contains(x));
                let j = choose|j: int| 0 <= j < b2.len() && b2[j] == x;
                assert((b1 + b2)[b1.len() + j] == x);
            }
        }
        if (b1 + b2).contains(x) {
            let i = choose|i: int| 0 <= i < (b1 + b2).len() && (b1 + b2)[i] == x;
            if i < b1.len() {
                assert(b1[i] == x);
                assert(b1.contains(x));
                assert(a1.contains(x));
                let j = choose|j: int| 0 <= j < a1.len() && a1[j] == x;
                assert((a1 + a2)[j] == x);
            } else {
                assert(b2[i - b1.len()] == x);
                assert(b2.contains(x));
                assert(a2.contains(x));
                let j = choose|j: int| 0 <= j < a2.len() && a2[j] == x;
                assert((a1 + a2)[a1.len() + j] == x);
            }
        }
    }
}

/// The union box of a range of primitives: it encloses the box of every
/// primitive in the range, and is itself enclosed by any box that does.
fn range_box(objects: &Vec<Primitive>, start: usize, end: usize) -> (r: AABB)
    requires
        start < end <= objects.len(),
        all_prims_wf(objects@),
    ensures
        aabb_wf(r@, 0x4000_0000),
        aabb_sized(r@),
        covers_all(r@, objects@.subrange(start as int, end as int)),
        forall|b: AabbV|
            aabb_wf(b, 0x4000_0000) && #[trigger] covers_all(
                b,
                objects@.subrange(start as int, end as int),
            ) ==> aabb_contains_box(b, r@),
{
    let ghost range = objects@.subrange(start as int, end as int);
    let mut bbox = AABB::empty();
    let mut idx = start;
    while idx < end
        invariant
            start <= idx <= end <= objects@.len(),
            all_prims_wf(objects@),
            range == objects@.subrange(start as int, end as int),
            idx == start ==> bbox@ == crate::aabb::aabb_empty_s(),
            idx > start ==> aabb_wf(bbox@, 0x4000_0000) && aabb_sized(bbox@),
            forall|i: int|
                start <= i < idx ==> aabb_contains_box(
                    bbox@,
                    prim_bbox_s(#[trigger] objects@[i]),
                ),
            forall|b: AabbV|
                aabb_wf(b, 0x4000_0000) && #[trigger] covers_all(b, range) && idx > start
                    ==> aabb_contains_box(b, bbox@),
        decreases end - idx,
    {
        let obox = objects[idx].bounding_box();
        proof {
            assert(prim_wf(objects@[idx as int]));
            assert(range[idx - start as int] == objects@[idx as int]);
        }
        bbox = AABB::from_boxes(&bbox, &obox);
        proof {
            assert forall|b: AabbV|
                aabb_wf(b, 0x4000_0000) && #[trigger] covers_all(b, range)
                    implies aabb_contains_box(b, bbox@) by {
                assert(aabb_contains_box(b, prim_bbox_s(range[idx - start as int])));
            }
        }
        idx = idx + 1;
    }
    bbox
}

/// The children's leaves hold the same primitives as the range the node
/// was built over (a single-element range is duplicated into both
/// children, which changes no element).
pub open spec fn leaves_cover(n: BvhNode, range: Seq<Primitive>) -> bool {
    same_elements(node_leaves(n), range)
}

impl BvhNode {
    /// Builds the tree over the whole group.
    pub fn from_hittable_list(mut list: HittableList) -> (res: BvhNode)
        requires
            1 <= list.objects@.len() <= 0x1000_0000,
            all_prims_wf(list.objects@),
        ensures
            node_wf(res),
            same_elements(node_leaves(res), list.objects@),
    {
        let ghost orig = list.objects@;
        let size = list.objects.len();
        let res = BvhNode::new(&mut list.objects, 0, size);
        proof {
            assert(list.objects@.subrange(0, size as int) =~= list.objects@);
            assert(orig.subrange(0, size as int) =~= orig);
            lemma_multiset_to_same_elements(list.objects@, orig);
        }
        res
    }

    /// Builds a node over the subrange [start, end): the union box is
    /// taken first, the subrange is sorted by box key along its longest
    /// axis, and the two halves are built recursively; a single object is
    /// shared by both children and a pair is split between them.
    pub fn new(objects: &mut Vec<Primitive>, start: usize, end: usize) -> (res: BvhNode)
        requires
            start < end <= old(objects).len(),
            end - start <= 0x1000_0000,
            all_prims_wf(old(objects)@),
        ensures
            final(objects)@.len() == old(objects)@.len(),
            all_prims_wf(final(objects)@),
            forall|k: int|
                0 <= k < old(objects)@.len() && !(start <= k < end) ==> final(objects)@[k] == old(
                    objects,
                )@[k],
            final(objects)@.subrange(start as int, end as int).to_multiset() == old(
                objects,
            )@.subrange(start as int, end as int).to_multiset(),
            node_wf(res),
            leaves_cover(res, final(objects)@.subrange(start as int, end as int)),
            forall|b: AabbV|
                aabb_wf(b, 0x4000_0000) && #[trigger] covers_all(
                    b,
                    final(objects)@.subrange(start as int, end as int),
                ) ==> aabb_contains_box(b, res.bbox@),
        decreases end - start,
    {
        broadcast use group_seq_properties;

        let ghost orig = objects@;
        let bbox = range_box(objects, start, end);
        let axis = bbox.longest_axis();
        let span = end - start;
        if span == 1 {
            let p = objects[start];
            proof {
                let range = objects@.subrange(start as int, end as int);
                assert(range =~= seq![p]);
                let lv = tree_leaves(BvhTree::Leaf(p)) + tree_leaves(BvhTree::Leaf(p));
                assert(lv =~= seq![p, p]);
                assert forall|x: Primitive| #![trigger lv.contains(x)] #![trigger range.contains(x)]
                    lv.contains(x) <==> range.contains(x) by {
                    if lv.contains(x) {
                        let i = choose|i: int| 0 <= i < lv.len() && lv[i] == x;
                        assert(x == p);
                        assert(range[0] == p);
                    }
                    if range.contains(x) {
                        assert(x == p);
                        assert(lv[0] == p);
                    }
                }
                assert(aabb_contains_box(bbox@, prim_bbox_s(objects@[start as int])));
                assert forall|b: AabbV|
                    aabb_wf(b, 0x4000_0000) && #[trigger] covers_all(
                        b,
                        objects@.subrange(start as int, end as int),
                    ) implies aabb_contains_box(b, bbox@) by {}
            }
            let res = BvhNode {
                left: Box::new(BvhTree::Leaf(p)),
                right: Box::new(BvhTree::Leaf(p)),
                bbox,
            };
            proof {
                assert(*res.left == BvhTree::Leaf(p));
                assert(*res.right == BvhTree::Leaf(p));
                assert(prim_wf(p));
                assert(tree_wf(*res.left));
                assert(tree_wf(*res.right));
                assert(tree_bbox(*res.left) == prim_bbox_s(p));
                assert(res.bbox == bbox);
                assert(p == objects@[start as int]);
                assert(aabb_contains_box(res.bbox@, tree_bbox(*res.left)));
                assert(aabb_contains_box(res.bbox@, tree_bbox(*res.right)));
                assert(node_wf(res));
                assert(node_leaves(res) == tree_leaves(BvhTree::Leaf(p)) + tree_leaves(
                    BvhTree::Leaf(p),
                ));
            }
            res
        } else if span == 2 {
            let p0 = objects[start];
            let p1 = objects[start + 1];
            proof {
                let range = objects@.subrange(start as int, end as int);
                assert(range =~= seq![p0, p1]);
                let lv = tree_leaves(BvhTree::Leaf(p0)) + tree_leaves(BvhTree::Leaf(p1));
                assert(lv =~= seq![p0, p1]);
                assert(aabb_contains_box(bbox@, prim_bbox_s(objects@[start as int])));
                assert(aabb_contains_box(bbox@, prim_bbox_s(objects@[start as int + 1])));
                assert forall|b: AabbV|
                    aabb_wf(b, 0x4000_0000) && #[trigger] covers_all(
                        b,
                        objects@.subrange(start as int, end as int),
                    ) implies aabb_contains_box(b, bbox@) by {}
            }
            let res = BvhNode {
                left: Box::new(BvhTree::Leaf(p0)),
                right: Box::new(BvhTree::Leaf(p1)),
                bbox,
            };
            proof {
                assert(*res.left == BvhTree::Leaf(p0));
                assert(*res.right == BvhTree::Leaf(p1));
                assert(prim_wf(p0) && prim_wf(p1));
                assert(tree_wf(*res.left) && tree_wf(*res.right));
                assert(tree_bbox(*res.left) == prim_bbox_s(p0));
                assert(tree_bbox(*res.right) == prim_bbox_s(p1));
                assert(p0 == objects@[start as int] && p1 == objects@[start as int + 1]);
                assert(aabb_contains_box(res.bbox@, tree_bbox(*res.left)));
                assert(aabb_contains_box(res.bbox@, tree_bbox(*res.right)));
                assert(node_wf(res));
                assert(node_leaves(res) == tree_leaves(BvhTree::Leaf(p0)) + tree_leaves(
                    BvhTree::Leaf(p1),
                ));
            }
            res
        } else {
            sort_range(objects, start, end, axis);
            proof {
                lemma_multiset_to_same_elements(objects@, orig);
                lemma_wf_transfer(objects@, orig);
            }
            let ghost sorted = objects@;
            let mid = start + span / 2;
            let left_node = BvhNode::new(objects, start, mid);
            let ghost after_left = objects@;
            let right_node = BvhNode::new(objects, mid, end);
            let ghost fin = objects@;
            proof {
                broadcast use vstd::multiset::group_multiset_axioms;
                broadcast use group_to_multiset_ensures;

                // the two halves of the final range
                assert(fin.subrange(start as int, end as int) =~= fin.subrange(
                    start as int,
                    mid as int,
                ) + fin.subrange(mid as int, end as int));
                assert(sorted.subrange(start as int, end as int) =~= sorted.subrange(
                    start as int,
                    mid as int,
                ) + sorted.subrange(mid as int, end as int));
                assert(orig.subrange(start as int, end as int) =~= orig.subrange(
                    start as int,
                    mid as int,
                ) + orig.subrange(mid as int, end as int));
                // the right build left the left half alone, and vice versa
                assert(fin.subrange(start as int, mid as int) =~= after_left.subrange(
                    start as int,
                    mid as int,
                ));
                assert(after_left.subrange(mid as int, end as int) =~= sorted.subrange(
                    mid as int,
                    end as int,
                ));
                // multiset of the whole range is preserved
                vstd::seq_lib::lemma_multiset_commutative(
                    fin.subrange(start as int, mid as int),
                    fin.subrange(mid as int, end as int),
                );
                vstd::seq_lib::lemma_multiset_commutative(
                    sorted.subrange(start as int, mid as int),
                    sorted.subrange(mid as int, end as int),
                );
                assert(fin.subrange(start as int, end as int).to_multiset() == sorted.subrange(
                    start as int,
                    end as int,
                ).to_multiset());
                // the leaves hold the same primitives as the final range
                lemma_same_elements_concat(
                    node_leaves(left_node),
                    node_leaves(right_node),
                    fin.subrange(start as int, mid as int),
                    fin.subrange(mid as int, end as int),
                );
                // the union box covers the final range, so it covers both
                // children's leaves and hence their boxes
                lemma_multiset_to_same_elements(
                    fin.subrange(start as int, end as int),
                    orig.subrange(start as int, end as int),
                );
                lemma_covers_transfer(
                    bbox@,
                    fin.subrange(start as int, end as int),
                    orig.subrange(start as int, end as int),
                );
                assert forall|i: int|
                    start <= i < mid implies aabb_contains_box(
                    bbox@,
                    prim_bbox_s(#[trigger] fin.subrange(start as int, mid as int)[i - start]),
                ) by {
                    assert(fin.subrange(start as int, mid as int)[i - start]
                        == fin.subrange(start as int, end as int)[i - start]);
                }
                assert(covers_all(bbox@, fin.subrange(start as int, mid as int))) by {
                    assert forall|i: int|
                        0 <= i < fin.subrange(start as int, mid as int).len()
                            implies aabb_contains_box(
                        bbox@,
                        prim_bbox_s(#[trigger] fin.subrange(start as int, mid as int)[i]),
                    ) by {
                        assert(fin.subrange(start as int, mid as int)[i] == fin.subrange(
                            start as int,
                            end as int,
                        )[i]);
                    }
                }
                assert(covers_all(bbox@, fin.subrange(mid as int, end as int))) by {
                    assert forall|i: int|
                        0 <= i < fin.subrange(mid as int, end as int).len()
                            implies aabb_contains_box(
                        bbox@,
                        prim_bbox_s(#[trigger] fin.subrange(mid as int, end as int)[i]),
                    ) by {
                        assert(fin.subrange(mid as int, end as int)[i] == fin.subrange(
                            start as int,
                            end as int,
                        )[i + (mid - start)]);
                    }
                }
                assert(aabb_contains_box(bbox@, left_node.bbox@));
                assert(aabb_contains_box(bbox@, right_node.bbox@));
                assert forall|b: AabbV|
                    aabb_wf(b, 0x4000_0000) && #[trigger] covers_all(
                        b,
                        fin.subrange(start as int, end as int),
                    ) implies aabb_contains_box(b, bbox@) by {
                    lemma_covers_transfer(
                        b,
                        orig.subrange(start as int, end as int),
                        fin.subrange(start as int, end as int),
                    );
                    assert(covers_all(b, orig.subrange(start as int, end as int)));
                }
            }
            let res = BvhNode {
                left: Box::new(BvhTree::Node(left_node)),
                right: Box::new(BvhTree::Node(right_node)),
                bbox,
            };
            proof {
                assert(*res.left == BvhTree::Node(left_node));
                assert(*res.right == BvhTree::Node(right_node));
                assert(tree_wf(*res.left) && tree_wf(*res.right));
                assert(tree_bbox(*res.left) == left_node.bbox@);
                assert(tree_bbox(*res.right) == right_node.bbox@);
                assert(aabb_contains_box(res.bbox@, tree_bbox(*res.left)));
                assert(aabb_contains_box(res.bbox@, tree_bbox(*res.right)));
                assert(node_wf(res));
                assert(node_leaves(res) == node_leaves(left_node) + node_leaves(right_node));
            }
            res
        }
    }
}

/// Traverses a subtree: a leaf queries its primitive, a node fails fast
/// when its box misses and otherwise queries the left subtree over the
/// full range and the right one over the range narrowed to the left
/// result, exactly the brute-force scan of its leaves.
fn tree_hit(t: &BvhTree, r: &Ray, ray_t: Interval, rec: &mut HitRecord) -> (res: bool)
    requires
        tree_wf(*t),
        ray_wf(r@),
        -T_BOUND as int <= ray_t@.min <= T_BOUND as int,
        -T_BOUND as int <= ray_t@.max <= T_BOUND as int,
    ensures
        res == scan_hit(tree_leaves(*t), r@, ray_t@.min, ray_t@.max).is_some(),
        res ==> final(rec)@ == scan_hit(tree_leaves(*t), r@, ray_t@.min, ray_t@.max).unwrap(),
        !res ==> final(rec)@ == old(rec)@,
    decreases tree_size(*t),
{
    match t {
        BvhTree::Leaf(p) => {
            proof {
                let lv = tree_leaves(*t);
                assert(lv =~= seq![*p]);
                assert(lv.drop_last() =~= Seq::<Primitive>::empty());
                assert(lv.last() == *p);
                assert(scan_hit(lv.drop_last(), r@, ray_t@.min, ray_t@.max).is_none());
                assert(scan_hit(lv, r@, ray_t@.min, ray_t@.max) == prim_hit_s(
                    *p,
                    r@,
                    ray_t@.min,
                    ray_t@.max,
                ));
            }
            p.hit(r, ray_t, rec)
        },
        BvhTree::Node(n) => {
            proof {
                lemma_tree_size_pos(*n.left);
                lemma_tree_size_pos(*n.right);
            }
            node_hit(n, r, ray_t, rec)
        },
    }
}

/// The node traversal; split out so that the trait implementation and the
/// recursive tree walk share one body.
fn node_hit(n: &BvhNode, r: &Ray, ray_t: Interval, rec: &mut HitRecord) -> (res: bool)
    requires
        node_wf(*n),
        ray_wf(r@),
        -T_BOUND as int <= ray_t@.min <= T_BOUND as int,
        -T_BOUND as int <= ray_t@.max <= T_BOUND as int,
    ensures
        res == scan_hit(node_leaves(*n), r@, ray_t@.min, ray_t@.max).is_some(),
        res ==> final(rec)@ == scan_hit(node_leaves(*n), r@, ray_t@.min, ray_t@.max).unwrap(),
        !res ==> final(rec)@ == old(rec)@,
    decreases tree_size(*n.left) + tree_size(*n.right),
{
    let ghost t0 = ray_t@.min;
    let ghost t1 = ray_t@.max;
    let ghost leaves = node_leaves(*n);
    if !n.bbox.hit(r, ray_t) {
        proof {
            lemma_tree_boxes(BvhTree::Node(*n));
            assert(tree_leaves(BvhTree::Node(*n)) == leaves);
            lemma_scan_props(leaves, r@, t0, t1);
            if scan_hit(leaves, r@, t0, t1).is_some() {
                let hrec = scan_hit(leaves, r@, t0, t1).unwrap();
                let i = choose|i: int|
                    0 <= i < leaves.len() && #[trigger] prim_hit_s(leaves[i], r@, t0, t1)
                        == Some::<HitRecV>(hrec);
                lemma_prim_props(leaves[i], r@, t0, t1);
                assert(aabb_contains_box(n.bbox@, prim_bbox_s(leaves[i])));
                assert(pt_in_aabb(n.bbox@, v3_ray_at(r@, hrec.t)));
                assert(aabb_hit_s(n.bbox@, r@, t0, t1));
                assert(false);
            }
        }
        return false;
    }
    proof {
        lemma_tree_size_pos(*n.left);
        lemma_tree_size_pos(*n.right);
    }
    let hit_left = tree_hit(&*n.left, r, ray_t, rec);
    proof {
        if hit_left {
            lemma_tree_boxes(*n.left);
            lemma_scan_props(tree_leaves(*n.left), r@, t0, t1);
        }
    }
    let far = if hit_left {
        rec.t
    } else {
        ray_t.max
    };
    let narrowed = Interval::new(ray_t.min, far);
    let hit_right = tree_hit(&*n.right, r, narrowed, rec);
    proof {
        lemma_scan_concat(tree_leaves(*n.left), tree_leaves(*n.right), r@, t0, t1);
        assert(far as int == cur_max(scan_hit(tree_leaves(*n.left), r@, t0, t1), t1));
    }
    hit_left || hit_right
}

impl Hittable for BvhNode {
    open spec fn hit_spec(&self, r: RayV, t0: int, t1: int) -> Option<HitRecV> {
        scan_hit(node_leaves(*self), r, t0, t1)
    }

    open spec fn wf(&self) -> bool {
        node_wf(*self)
    }

    open spec fn mats_below(&self, n: int) -> bool {
        all_mats_below(node_leaves(*self), n)
    }

    open spec fn bbox_s(&self) -> AabbV {
        self.bbox@
    }

    fn hit(&self, r: &Ray, ray_t: Interval, rec: &mut HitRecord) -> (res: bool) {
        node_hit(self, r, ray_t, rec)
    }

    fn bounding_box(&self) -> (b: AABB) {
        self.bbox
    }

    proof fn lemma_hit_wf(&self, r: RayV, t0: int, t1: int, n: int) {
        lemma_tree_boxes(BvhTree::Node(*self));
        lemma_scan_props(node_leaves(*self), r, t0, t1);
        let rec = scan_hit(node_leaves(*self), r, t0, t1).unwrap();
        let i = choose|i: int|
            0 <= i < node_leaves(*self).len() && #[trigger] prim_hit_s(
                node_leaves(*self)[i],
                r,
                t0,
                t1,
            ) == Some::<HitRecV>(rec);
        lemma_prim_props(node_leaves(*self)[i], r, t0, t1);
        assert(node_leaves(*self).contains(node_leaves(*self)[i]));
    }
}

/// The hierarchy is transparent: over any query a built tree reports a
/// hit exactly when the brute-force scan of the primitives it was built
/// from does, and at the same closest parameter.
pub proof fn lemma_bvh_matches_list(n: BvhNode, s: Seq<Primitive>, r: RayV, t0: int, t1: int)
    requires
        node_wf(n),
        all_prims_wf(s),
        same_elements(node_leaves(n), s),
    ensures
        scan_hit(node_leaves(n), r, t0, t1).is_some() == scan_hit(s, r, t0, t1).is_some(),
        scan_hit(node_leaves(n), r, t0, t1).is_some() ==> scan_hit(
            node_leaves(n),
            r,
            t0,
            t1,
        ).unwrap().t == scan_hit(s, r, t0, t1).unwrap().t,
{
    lemma_tree_boxes(BvhTree::Node(n));
    lemma_scan_set_agree(node_leaves(n), s, r, t0, t1);
}

/// When no two distinct primitives strike the ray at the same parameter,
/// the tree's answer is the scan's answer, record for record.
pub proof fn lemma_bvh_matches_list_full(n: BvhNode, s: Seq<Primitive>, r: RayV, t0: int, t1: int)
    requires
        node_wf(n),
        all_prims_wf(s),
        same_elements(node_leaves(n), s),
        forall|x: Primitive, y: Primitive|
            node_leaves(n).contains(x) && node_leaves(n).contains(y) && x != y && (
            #[trigger] prim_hit_s(x, r, t0, t1)).is_some() && (#[trigger] prim_hit_s(
                y,
                r,
                t0,
                t1,
            )).is_some() ==> prim_hit_s(x, r, t0, t1).unwrap().t != prim_hit_s(
                y,
                r,
                t0,
                t1,
            ).unwrap().t,
    ensures
        scan_hit(node_leaves(n), r, t0, t1) == scan_hit(s, r, t0, t1),
{
    lemma_tree_boxes(BvhTree::Node(n));
    crate::hittable_list::lemma_scan_set_agree_full(node_leaves(n), s, r, t0, t1);
}

} // verus!
