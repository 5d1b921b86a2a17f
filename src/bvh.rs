use vstd::prelude::*;
use crate::aabb::Aabb;
use crate::frac::Frac;
use crate::hittable::{HitRecord, hit_ok};
use crate::ray::Ray;
use crate::shape::Shape;
use crate::aabb::{lemma_enclose, lemma_hit_monotone};
use crate::frac::{lemma_le_refl, lemma_le_trans, lemma_lt_total};
use crate::sphere::{hits_inside, lemma_hit_in_box, lemma_shrink_interval};

verus! {

/// A node of the hierarchy; children are indices of earlier nodes.
#[derive(Clone, Copy, Debug, PartialEq, Eq)]
pub enum BvhNode {
    Leaf { bbox: Aabb, prim: usize },
    Inner { bbox: Aabb, left: usize, right: usize },
}

/// Why a hierarchy could not be built.
#[derive(Clone, Copy, Debug, PartialEq, Eq)]
pub enum BvhError {
    /// There is nothing to enclose.
    EmptyScene,
    /// Some primitive has no bounding box.
    NoBoundingBox,
}

/// A bounding volume hierarchy over an arena of primitives; the root is the
/// last node.
#[derive(Debug)]
pub struct Bvh {
    pub shapes: Vec<Shape>,
    pub nodes: Vec<BvhNode>,
}

impl BvhNode {
    pub open spec fn bbox_spec(self) -> Aabb {
        match self {
            BvhNode::Leaf { bbox, .. } => bbox,
            BvhNode::Inner { bbox, .. } => bbox,
        }
    }

    /// The box enclosing everything below this node.
    pub fn bbox(&self) -> (b: Aabb)
        ensures
            b == self.bbox_spec(),
    {
        match self {
            BvhNode::Leaf { bbox, .. } => *bbox,
            BvhNode::Inner { bbox, .. } => *bbox,
        }
    }
}

/// Node `i` is sound: a leaf holds a primitive and that primitive's box, an
/// inner node points at earlier nodes and holds the enclosure of their boxes.
pub open spec fn node_ok(shapes: Seq<Shape>, nodes: Seq<BvhNode>, i: int) -> bool {
    match nodes[i] {
        BvhNode::Leaf { bbox, prim } => prim < shapes.len() && bbox == shapes[prim as int].box_spec(),
        BvhNode::Inner { bbox, left, right } => {
            &&& left < i
            &&& right < i
            &&& bbox == nodes[left as int].bbox_spec().enclose_spec(nodes[right as int].bbox_spec())
        },
    }
}

/// Every shape is valid and every node is sound.
pub open spec fn arena_ok(shapes: Seq<Shape>, nodes: Seq<BvhNode>) -> bool {
    &&& shapes_ok(shapes)
    &&& forall|i: int| 0 <= i < nodes.len() ==> #[trigger] node_ok(shapes, nodes, i)
}

/// The nearest hit below node `i`: a node whose box the ray misses reports
/// nothing; otherwise the left child is searched, the right child is searched
/// up to the left child's hit, and the right child's hit wins if there is one.
pub open spec fn trace(
    shapes: Seq<Shape>,
    nodes: Seq<BvhNode>,
    i: int,
    r: Ray,
    t_min: Frac,
    t_max: Frac,
) -> Option<HitRecord>
    decreases i,
{
    if !(0 <= i < nodes.len()) || !nodes[i].bbox_spec().hit_spec(r, t_min, t_max) {
        None
    } else {
        match nodes[i] {
            BvhNode::Leaf { prim, .. } => if prim < shapes.len() {
                shapes[prim as int].hit_spec(r, t_min, t_max)
            } else {
                None
            },
            BvhNode::Inner { left, right, .. } => if left < i && right < i {
                let hl = trace(shapes, nodes, left as int, r, t_min, t_max);
                let bound = match hl {
                    Some(h) => h.t,
                    None => t_max,
                };
                let hr = trace(shapes, nodes, right as int, r, t_min, bound);
                if hr is Some {
                    hr
                } else {
                    hl
                }
            } else {
                None
            },
        }
    }
}

/// The box of every node is well formed.
pub proof fn lemma_boxes_wf(shapes: Seq<Shape>, nodes: Seq<BvhNode>, i: int)
    requires
        arena_ok(shapes, nodes),
        0 <= i < nodes.len(),
    ensures
        nodes[i].bbox_spec().wf(),
    decreases i,
{
    assert(node_ok(shapes, nodes, i));
    match nodes[i] {
        BvhNode::Leaf { prim, .. } => {
            assert(shapes[prim as int].wf());
            match shapes[prim as int] {
                Shape::Sphere(s) => {},
            }
        },
        BvhNode::Inner { left, right, .. } => {
            lemma_boxes_wf(shapes, nodes, left as int);
            lemma_boxes_wf(shapes, nodes, right as int);
            let (a, b) = (nodes[left as int].bbox_spec(), nodes[right as int].bbox_spec());
            assert(a.enclose_spec(b).wf());
        },
    }
}

/// Every hit the traversal reports comes from a primitive and has a
/// well-formed parameter.
pub proof fn lemma_trace_wf(shapes: Seq<Shape>, nodes: Seq<BvhNode>, i: int, r: Ray, t_min: Frac, t_max: Frac)
    requires
        arena_ok(shapes, nodes),
        r.wf(),
        t_min.wf(),
        t_max.wf(),
    ensures
        hit_ok(trace(shapes, nodes, i, r, t_min, t_max)),
    decreases i,
{
    if 0 <= i < nodes.len() && nodes[i].bbox_spec().hit_spec(r, t_min, t_max) {
        assert(node_ok(shapes, nodes, i));
        match nodes[i] {
            BvhNode::Leaf { prim, .. } => {
                assert(shapes[prim as int].wf());
                match shapes[prim as int] {
                    Shape::Sphere(s) => {
                        s.lemma_hit_wf(r, t_min, t_max);
                    },
                }
            },
            BvhNode::Inner { left, right, .. } => {
                lemma_trace_wf(shapes, nodes, left as int, r, t_min, t_max);
                let hl = trace(shapes, nodes, left as int, r, t_min, t_max);
                let bound = match hl {
                    Some(h) => h.t,
                    None => t_max,
                };
                lemma_trace_wf(shapes, nodes, right as int, r, t_min, bound);
            },
        }
    }
}

impl Bvh {
    /// The arena is sound and has a root.
    pub open spec fn wf(self) -> bool {
        arena_ok(self.shapes@, self.nodes@) && self.nodes@.len() > 0
    }

    /// Every shape sits at a leaf below the root.
    pub open spec fn covers(self) -> bool {
        forall|p: int| 0 <= p < self.shapes@.len() ==> #[trigger] in_tree(self.nodes@, self.root(), p)
    }

    /// Index of the root node.
    pub open spec fn root(self) -> int {
        self.nodes@.len() - 1
    }

    /// The nearest hit of `r` within `[t_min, t_max]`, found by walking the
    /// hierarchy from the root.
    pub fn hit(&self, r: &Ray, t_min: &Frac, t_max: &Frac) -> (res: Option<HitRecord>)
        requires
            self.wf(),
            r.wf(),
            t_min.wf(),
            t_max.wf(),
        ensures
            res == trace(self.shapes@, self.nodes@, self.root(), *r, *t_min, *t_max),
    {
        self.hit_node(self.nodes.len() - 1, r, t_min, t_max)
    }

    fn hit_node(&self, i: usize, r: &Ray, t_min: &Frac, t_max: &Frac) -> (res: Option<HitRecord>)
        requires
            arena_ok(self.shapes@, self.nodes@),
            i < self.nodes@.len(),
            r.wf(),
            t_min.wf(),
            t_max.wf(),
        ensures
            res == trace(self.shapes@, self.nodes@, i as int, *r, *t_min, *t_max),
        decreases i,
    {
        proof {
            lemma_boxes_wf(self.shapes@, self.nodes@, i as int);
            assert(node_ok(self.shapes@, self.nodes@, i as int));
        }
        match &self.nodes[i] {
            BvhNode::Leaf { bbox, prim } => {
                if !bbox.hit(r, t_min, t_max) {
                    return None;
                }
                proof {
                    assert(self.shapes@[*prim as int].wf());
                }
                self.shapes[*prim].hit(r, t_min, t_max)
            },
            BvhNode::Inner { bbox, left, right } => {
                if !bbox.hit(r, t_min, t_max) {
                    return None;
                }
                let hl = self.hit_node(*left, r, t_min, t_max);
                proof {
                    lemma_trace_wf(self.shapes@, self.nodes@, *left as int, *r, *t_min, *t_max);
                }
                let bound = match &hl {
                    Some(h) => h.t,
                    None => *t_max,
                };
                let hr = self.hit_node(*right, r, t_min, &bound);
                if hr.is_some() {
                    hr
                } else {
                    hl
                }
            },
        }
    }
}

/// The minimum coordinate along `axis` of the box of shape `v`.
pub open spec fn key_spec(shapes: Seq<Shape>, v: usize, axis: int) -> i64 {
    match shapes[v as int].box_spec() {
        Aabb::Span { lo, .. } => lo.at(axis),
        Aabb::Empty => 0,
    }
}

/// Every shape is valid.
pub open spec fn shapes_ok(shapes: Seq<Shape>) -> bool {
    forall|k: int| 0 <= k < shapes.len() ==> (#[trigger] shapes[k]).wf()
}

/// Indices valid for `shapes`.
pub open spec fn indices_ok(shapes: Seq<Shape>, idx: Seq<usize>) -> bool {
    forall|k: int| 0 <= k < idx.len() ==> #[trigger] idx[k] < shapes.len()
}

/// `idx` is ordered by the shapes' minimum coordinate along `axis`.
pub open spec fn sorted_by(shapes: Seq<Shape>, idx: Seq<usize>, axis: int) -> bool {
    forall|a: int, b: int|
        0 <= a < b < idx.len() ==> key_spec(shapes, #[trigger] idx[a], axis) <= key_spec(
            shapes,
            #[trigger] idx[b],
            axis,
        )
}

fn box_key(shapes: &Vec<Shape>, v: usize, axis: usize) -> (k: i64)
    requires
        shapes_ok(shapes@),
        v < shapes@.len(),
        axis < 3,
    ensures
        k == key_spec(shapes@, v, axis as int),
{
    match shapes[v].bounding_box() {
        Aabb::Span { lo, .. } => lo.get(axis),
        Aabb::Empty => 0,
    }
}

/// Swapping two entries keeps the multiset of a sequence.
proof fn lemma_swap_multiset(s: Seq<usize>, i: int, j: int)
    requires
        0 <= i < s.len(),
        0 <= j < s.len(),
    ensures
        s.update(j, s[i]).update(i, s[j]).to_multiset() == s.to_multiset(),
{
    broadcast use vstd::seq_lib::to_multiset_update, vstd::multiset::group_multiset_axioms;

    broadcast use vstd::seq_lib::to_multiset_contains;

    let s1 = s.update(j, s[i]);
    if i == j {
        assert(s1.update(i, s[j]) =~= s);
    } else {
        let m = s.to_multiset();
        let (a, b) = (s[i], s[j]);
        assert(s.contains(b));
        assert(m.count(b) > 0);
        assert(s1.to_multiset() == m.insert(a).remove(b));
        assert(s1[i] == a);
        assert(s1.update(i, b).to_multiset() == m.insert(a).remove(b).insert(b).remove(a));
        assert(m.insert(a).remove(b).insert(b).remove(a) =~= m);
    }
}

/// Insertion sort of `idx` by the shapes' minimum coordinate along `axis`.
fn sort_by_axis(shapes: &Vec<Shape>, idx: &mut Vec<usize>, axis: usize)
    requires
        shapes_ok(shapes@),
        indices_ok(shapes@, old(idx)@),
        axis < 3,
    ensures
        final(idx)@.len() == old(idx)@.len(),
        indices_ok(shapes@, final(idx)@),
        sorted_by(shapes@, final(idx)@, axis as int),
        final(idx)@.to_multiset() == old(idx)@.to_multiset(),
{
    let ghost orig = idx@;
    let n = idx.len();
    let mut i: usize = 1;
    if n == 0 {
        return;
    }
    while i < n
        invariant
            1 <= i <= n,
            n == idx@.len(),
            shapes_ok(shapes@),
            axis < 3,
            indices_ok(shapes@, idx@),
            sorted_by(shapes@, idx@.subrange(0, i as int), axis as int),
            idx@.to_multiset() == orig.to_multiset(),
        decreases n - i,
    {
        let mut j: usize = i;
        assert forall|a: int, b: int| 0 <= a < b < i implies key_spec(
            shapes@,
            #[trigger] idx@[a],
            axis as int,
        ) <= key_spec(shapes@, #[trigger] idx@[b], axis as int) by {
            assert(idx@.subrange(0, i as int)[a] == idx@[a]);
            assert(idx@.subrange(0, i as int)[b] == idx@[b]);
        }
        while j > 0 && box_key(shapes, idx[j - 1], axis) > box_key(shapes, idx[j], axis)
            invariant
                0 <= j <= i < n,
                n == idx@.len(),
                shapes_ok(shapes@),
                idx@.to_multiset() == orig.to_multiset(),
                axis < 3,
                indices_ok(shapes@, idx@),
                forall|a: int, b: int|
                    0 <= a < b <= i && a != j && b != j ==> key_spec(
                        shapes@,
                        #[trigger] idx@[a],
                        axis as int,
                    ) <= key_spec(shapes@, #[trigger] idx@[b], axis as int),
                forall|b: int|
                    j < b <= i ==> key_spec(shapes@, idx@[j as int], axis as int) <= key_spec(
                        shapes@,
                        #[trigger] idx@[b],
                        axis as int,
                    ),
            decreases j,
        {
            let a = idx[j - 1];
            let b = idx[j];
            let ghost s0 = idx@;
            idx.set(j, a);
            idx.set(j - 1, b);
            proof {
                lemma_swap_multiset(s0, j - 1, j as int);
                assert(idx@ == s0.update(j as int, a).update(j - 1, b));
            }
            j = j - 1;
        }
        assert forall|a: int, b: int| 0 <= a < b < i + 1 implies key_spec(
            shapes@,
            #[trigger] idx@.subrange(0, i + 1)[a],
            axis as int,
        ) <= key_spec(shapes@, #[trigger] idx@.subrange(0, i + 1)[b], axis as int) by {
            assert(idx@.subrange(0, i + 1)[a] == idx@[a]);
            assert(idx@.subrange(0, i + 1)[b] == idx@[b]);
            if b == j && j > 0 && a < j - 1 {
                assert(key_spec(shapes@, idx@[a], axis as int) <= key_spec(
                    shapes@,
                    idx@[j - 1],
                    axis as int,
                ));
            }
        }
        i = i + 1;
    }
    assert(idx@.subrange(0, n as int) =~= idx@);
}

/// Appending a node that is sound in place keeps the arena sound.
proof fn lemma_push_ok(shapes: Seq<Shape>, nodes: Seq<BvhNode>, node: BvhNode)
    requires
        arena_ok(shapes, nodes),
        node_ok(shapes, nodes.push(node), nodes.len() as int),
    ensures
        arena_ok(shapes, nodes.push(node)),
{
    let nn = nodes.push(node);
    assert forall|i: int| 0 <= i < nn.len() implies #[trigger] node_ok(shapes, nn, i) by {
        if i < nodes.len() {
            assert(node_ok(shapes, nodes, i));
            assert(nn[i] == nodes[i]);
            match nodes[i] {
                BvhNode::Inner { left, right, .. } => {
                    assert(nn[left as int] == nodes[left as int]);
                    assert(nn[right as int] == nodes[right as int]);
                },
                _ => {},
            }
        }
    }
}

/// Appends a leaf for shape `p`; returns its index.
fn push_leaf(shapes: &Vec<Shape>, p: usize, nodes: &mut Vec<BvhNode>) -> (i: usize)
    requires
        arena_ok(shapes@, old(nodes)@),
        p < shapes@.len(),
        old(nodes)@.len() < usize::MAX,
    ensures
        arena_ok(shapes@, final(nodes)@),
        final(nodes)@ == old(nodes)@.push(
            BvhNode::Leaf { bbox: shapes@[p as int].box_spec(), prim: p },
        ),
        i == old(nodes)@.len(),
{
    proof {
        assert(shapes@[p as int].wf());
    }
    let node = BvhNode::Leaf { bbox: shapes[p].bounding_box(), prim: p };
    proof {
        lemma_push_ok(shapes@, nodes@, node);
    }
    nodes.push(node);
    nodes.len() - 1
}

/// Appends an inner node over nodes `l` and `r`; returns its index.
fn push_inner(shapes: &Vec<Shape>, l: usize, r: usize, nodes: &mut Vec<BvhNode>) -> (i: usize)
    requires
        arena_ok(shapes@, old(nodes)@),
        l < old(nodes)@.len(),
        r < old(nodes)@.len(),
        old(nodes)@.len() < usize::MAX,
    ensures
        arena_ok(shapes@, final(nodes)@),
        final(nodes)@.len() == old(nodes)@.len() + 1,
        final(nodes)@.subrange(0, old(nodes)@.len() as int) == old(nodes)@,
        final(nodes)@[i as int] matches BvhNode::Inner { left, right, .. } && left == l && right
            == r,
        i == old(nodes)@.len(),
{
    proof {
        lemma_boxes_wf(shapes@, nodes@, l as int);
        lemma_boxes_wf(shapes@, nodes@, r as int);
    }
    let bbox = nodes[l].bbox().enclose(&nodes[r].bbox());
    let node = BvhNode::Inner { bbox, left: l, right: r };
    proof {
        lemma_push_ok(shapes@, nodes@, node);
    }
    nodes.push(node);
    proof {
        assert(nodes@.subrange(0, nodes@.len() - 1) =~= old(nodes)@);
    }
    nodes.len() - 1
}

/// Appending nodes keeps every shape below the node it was below.
proof fn lemma_in_tree_extend(nodes: Seq<BvhNode>, nodes2: Seq<BvhNode>, i: int, v: int)
    requires
        in_tree(nodes, i, v),
        nodes.len() <= nodes2.len(),
        nodes2.subrange(0, nodes.len() as int) == nodes,
    ensures
        in_tree(nodes2, i, v),
    decreases i,
{
    assert(nodes2[i] == nodes2.subrange(0, nodes.len() as int)[i]);
    match nodes[i] {
        BvhNode::Leaf { .. } => {},
        BvhNode::Inner { left, right, .. } => {
            if in_tree(nodes, left as int, v) {
                lemma_in_tree_extend(nodes, nodes2, left as int, v);
            } else {
                lemma_in_tree_extend(nodes, nodes2, right as int, v);
            }
        },
    }
}

/// Builds the subtree over the shapes listed in `idx`, sorting them along an
/// axis chosen by `depth` (x, y, z in turn) and splitting at the midpoint.
/// Returns the index of the subtree's root, the last node appended.
fn build_span(shapes: &Vec<Shape>, idx: Vec<usize>, depth: usize, nodes: &mut Vec<BvhNode>) -> (root: usize)
    requires
        arena_ok(shapes@, old(nodes)@),
        idx@.len() >= 1,
        indices_ok(shapes@, idx@),
        old(nodes)@.len() + 2 * idx@.len() <= usize::MAX,
    ensures
        arena_ok(shapes@, final(nodes)@),
        old(nodes)@.len() < final(nodes)@.len() <= old(nodes)@.len() + 2 * idx@.len() - 1,
        root == final(nodes)@.len() - 1,
        final(nodes)@.subrange(0, old(nodes)@.len() as int) == old(nodes)@,
        forall|v: usize| idx@.contains(v) ==> in_tree(final(nodes)@, root as int, v as int),
    decreases idx@.len(),
{
    broadcast use vstd::seq_lib::to_multiset_contains;

    let n = idx.len();
    if n == 1 {
        let i = push_leaf(shapes, idx[0], nodes);
        proof {
            assert(nodes@.subrange(0, nodes@.len() - 1) =~= old(nodes)@);
            assert forall|v: usize| idx@.contains(v) implies in_tree(nodes@, i as int, v as int) by {
                let w = choose|w: int| 0 <= w < idx@.len() && idx@[w] == v;
                assert(w == 0);
            }
        }
        return i;
    }
    let axis = depth % 3;
    let ghost idx0 = idx@;
    let mut idx = idx;
    sort_by_axis(shapes, &mut idx, axis);
    assert forall|v: usize| idx0.contains(v) implies idx@.contains(v) by {
        assert(idx0.to_multiset().count(v) > 0);
    }
    let ghost idx1 = idx@;
    let next = if depth < usize::MAX { depth + 1 } else { 0 };
    let ghost n0 = nodes@;
    if n == 2 {
        let l = push_leaf(shapes, idx[0], nodes);
        let r = push_leaf(shapes, idx[1], nodes);
        let ghost n2 = nodes@;
        let i = push_inner(shapes, l, r, nodes);
        proof {
            assert(nodes@.subrange(0, n0.len() as int) =~= n0);
            assert(nodes@[l as int] == n2[l as int]);
            assert(nodes@[r as int] == n2[r as int]);
            assert forall|v: usize| idx0.contains(v) implies in_tree(nodes@, i as int, v as int) by {
                assert(idx1.contains(v));
                let w = choose|w: int| 0 <= w < idx1.len() && idx1[w] == v;
                assert(w == 0 || w == 1);
                assert(in_tree(nodes@, l as int, v as int) || in_tree(nodes@, r as int, v as int));
            }
        }
        i
    } else {
        let right_idx = idx.split_off(n / 2);
        let l = build_span(shapes, idx, next, nodes);
        let ghost n1 = nodes@;
        let r = build_span(shapes, right_idx, next, nodes);
        let ghost n2 = nodes@;
        let i = push_inner(shapes, l, r, nodes);
        proof {
            assert(nodes@.subrange(0, n1.len() as int) =~= n1) by {
                assert forall|k: int| 0 <= k < n1.len() implies nodes@[k] == n1[k] by {
                    assert(n2.subrange(0, n1.len() as int)[k] == n1[k]);
                    assert(nodes@.subrange(0, n2.len() as int)[k] == n2[k]);
                }
            }
            assert forall|v: usize| idx0.contains(v) implies in_tree(nodes@, i as int, v as int) by {
                assert(idx1.contains(v));
                let w = choose|w: int| 0 <= w < idx1.len() && idx1[w] == v;
                if w < (n / 2) as int {
                    assert(idx1.subrange(0, (n / 2) as int)[w] == v);
                    assert(idx1.subrange(0, (n / 2) as int).contains(v));
                    lemma_in_tree_extend(n1, nodes@, l as int, v as int);
                } else {
                    assert(idx1.subrange((n / 2) as int, n as int)[w - (n / 2) as int] == v);
                    assert(idx1.subrange((n / 2) as int, n as int).contains(v));
                    lemma_in_tree_extend(n2, nodes@, r as int, v as int);
                }
            }
            assert(nodes@.subrange(0, n0.len() as int) =~= n0) by {
                assert(n1.subrange(0, n0.len() as int) == n0);
                assert(n2.subrange(0, n1.len() as int) == n1);
                assert(nodes@.subrange(0, n2.len() as int) == n2);
                assert forall|k: int| 0 <= k < n0.len() implies nodes@[k] == n0[k] by {
                    assert(n1[k] == n0[k]);
                    assert(n2[k] == n1[k]);
                    assert(nodes@[k] == n2[k]);
                }
            }
        }
        i
    }
}

impl Bvh {
    /// Builds a hierarchy over `shapes`. Fails on an empty list, and on a
    /// list in which some shape has no bounding box.
    pub fn build(shapes: Vec<Shape>) -> (res: Result<Bvh, BvhError>)
        requires
            shapes_ok(shapes@),
            shapes@.len() <= usize::MAX / 4,
        ensures
            shapes@.len() == 0 ==> res == Err::<Bvh, BvhError>(BvhError::EmptyScene),
            shapes@.len() > 0 && (exists|k: int|
                0 <= k < shapes@.len() && #[trigger] shapes@[k].box_spec() == Aabb::Empty)
                ==> res == Err::<Bvh, BvhError>(BvhError::NoBoundingBox),
            shapes@.len() > 0 && (forall|k: int|
                0 <= k < shapes@.len() ==> #[trigger] shapes@[k].box_spec() != Aabb::Empty)
                ==> (res matches Ok(b) && b.wf() && b.shapes@ == shapes@ && b.covers()),
    {
        let n = shapes.len();
        if n == 0 {
            return Err(BvhError::EmptyScene);
        }
        let mut idx: Vec<usize> = Vec::new();
        let mut k: usize = 0;
        while k < n
            invariant
                n == shapes@.len(),
                shapes_ok(shapes@),
                k <= n,
                idx@.len() == k,
                forall|j: int| 0 <= j < k ==> #[trigger] idx@[j] == j,
                forall|j: int| 0 <= j < k ==> #[trigger] shapes@[j].box_spec() != Aabb::Empty,
            decreases n - k,
        {
            proof {
                assert(shapes@[k as int].wf());
            }
            if shapes[k].bounding_box().is_empty() {
                return Err(BvhError::NoBoundingBox);
            }
            idx.push(k);
            k = k + 1;
        }
        let mut nodes: Vec<BvhNode> = Vec::new();
        proof {
            assert(arena_ok(shapes@, nodes@));
        }
        let root = build_span(&shapes, idx, 0, &mut nodes);
        proof {
            assert forall|p: int| 0 <= p < shapes@.len() implies #[trigger] in_tree(nodes@, root as int, p) by {
                assert(idx@[p] == p);
                assert(idx@.contains(p as usize));
            }
        }
        Ok(Bvh { shapes, nodes })
    }
}

/// Every hit the traversal reports carries the material of one of the shapes.
pub proof fn lemma_trace_material(shapes: Seq<Shape>, nodes: Seq<BvhNode>, i: int, r: Ray, t_min: Frac, t_max: Frac)
    ensures
        trace(shapes, nodes, i, r, t_min, t_max) matches Some(h) ==> exists|k: int|
            0 <= k < shapes.len() && h.material == (#[trigger] shapes[k]).material(),
    decreases i,
{
    if 0 <= i < nodes.len() && nodes[i].bbox_spec().hit_spec(r, t_min, t_max) {
        match nodes[i] {
            BvhNode::Leaf { prim, .. } => {
                if prim < shapes.len() {
                    let k = prim as int;
                    match shapes[k] {
                        Shape::Sphere(s) => {
                            if trace(shapes, nodes, i, r, t_min, t_max) is Some {
                                assert(shapes[k].material() == s.material);
                            }
                        },
                    }
                }
            },
            BvhNode::Inner { left, right, .. } => if left < i && right < i {
                lemma_trace_material(shapes, nodes, left as int, r, t_min, t_max);
                let hl = trace(shapes, nodes, left as int, r, t_min, t_max);
                let bound = match hl {
                    Some(h) => h.t,
                    None => t_max,
                };
                lemma_trace_material(shapes, nodes, right as int, r, t_min, bound);
            } else {
            },
        }
    }
}

/// Shape `p` sits at a leaf below node `i`.
pub open spec fn in_tree(nodes: Seq<BvhNode>, i: int, p: int) -> bool
    decreases i,
{
    if !(0 <= i < nodes.len()) {
        false
    } else {
        match nodes[i] {
            BvhNode::Leaf { prim, .. } => prim == p,
            BvhNode::Inner { left, right, .. } => left < i && right < i && (in_tree(
                nodes,
                left as int,
                p,
            ) || in_tree(nodes, right as int, p)),
        }
    }
}

/// Shape `sh` reports a hit strictly inside `(t_min, t_max)`, at `t`.
pub open spec fn shape_hits_at(sh: Shape, r: Ray, t_min: Frac, t_max: Frac, t: Frac) -> bool {
    match sh {
        Shape::Sphere(s) => hits_inside(s, r, t_min, t_max) && s.hit_t(r, t_min, t_max) == Some(t),
    }
}

/// Containment of boxes is transitive.
proof fn lemma_contains_trans(a: Aabb, b: Aabb, c: Aabb)
    requires
        a.contains(b),
        b.contains(c),
    ensures
        a.contains(c),
{
}

/// The box of a node contains the box of every shape below it.
proof fn lemma_tree_box(shapes: Seq<Shape>, nodes: Seq<BvhNode>, i: int, p: int)
    requires
        arena_ok(shapes, nodes),
        in_tree(nodes, i, p),
    ensures
        0 <= p < shapes.len(),
        nodes[i].bbox_spec().contains(shapes[p].box_spec()),
    decreases i,
{
    assert(node_ok(shapes, nodes, i));
    match nodes[i] {
        BvhNode::Leaf { .. } => {},
        BvhNode::Inner { left, right, .. } => {
            lemma_boxes_wf(shapes, nodes, left as int);
            lemma_boxes_wf(shapes, nodes, right as int);
            let (lb, rb) = (nodes[left as int].bbox_spec(), nodes[right as int].bbox_spec());
            lemma_enclose(lb, rb, lb);
            if in_tree(nodes, left as int, p) {
                lemma_tree_box(shapes, nodes, left as int, p);
                lemma_contains_trans(nodes[i].bbox_spec(), lb, shapes[p].box_spec());
            } else {
                lemma_tree_box(shapes, nodes, right as int, p);
                lemma_contains_trans(nodes[i].bbox_spec(), rb, shapes[p].box_spec());
            }
        },
    }
}

/// A reported hit lies within `[t_min, t_max]`.
proof fn lemma_trace_range(shapes: Seq<Shape>, nodes: Seq<BvhNode>, i: int, r: Ray, t_min: Frac, t_max: Frac)
    requires
        arena_ok(shapes, nodes),
        r.wf(),
        t_min.wf(),
        t_max.wf(),
    ensures
        trace(shapes, nodes, i, r, t_min, t_max) matches Some(h) ==> t_min.le(h.t) && h.t.le(t_max),
    decreases i,
{
    if 0 <= i < nodes.len() && nodes[i].bbox_spec().hit_spec(r, t_min, t_max) {
        match nodes[i] {
            BvhNode::Leaf { prim, .. } => {},
            BvhNode::Inner { left, right, .. } => if left < i && right < i {
                lemma_trace_range(shapes, nodes, left as int, r, t_min, t_max);
                lemma_trace_wf(shapes, nodes, left as int, r, t_min, t_max);
                let hl = trace(shapes, nodes, left as int, r, t_min, t_max);
                let bound = match hl {
                    Some(h) => h.t,
                    None => t_max,
                };
                lemma_trace_range(shapes, nodes, right as int, r, t_min, bound);
                lemma_trace_wf(shapes, nodes, right as int, r, t_min, bound);
                let hr = trace(shapes, nodes, right as int, r, t_min, bound);
                if hl is Some && hr is Some {
                    lemma_le_trans(hr.unwrap().t, bound, t_max);
                }
            },
        }
    }
}

/// Traversal finds the nearest hit: where a shape below node `i` reports a
/// hit strictly inside `(t_min, t_max)` at `t`, the traversal reports a hit
/// at `t` or nearer.
pub proof fn lemma_trace_nearest(
    shapes: Seq<Shape>,
    nodes: Seq<BvhNode>,
    i: int,
    r: Ray,
    t_min: Frac,
    t_max: Frac,
    p: int,
    t: Frac,
)
    requires
        arena_ok(shapes, nodes),
        r.wf(),
        t_min.wf(),
        t_max.wf(),
        0 <= p < shapes.len(),
        in_tree(nodes, i, p),
        shape_hits_at(shapes[p], r, t_min, t_max, t),
    ensures
        trace(shapes, nodes, i, r, t_min, t_max) matches Some(h) && h.t.le(t),
    decreases i,
{
    lemma_tree_box(shapes, nodes, i, p);
    lemma_boxes_wf(shapes, nodes, i);
    assert(shapes[p].wf());
    match shapes[p] {
        Shape::Sphere(s) => {
            lemma_hit_in_box(s, r, t_min, t_max);
            lemma_hit_monotone(s.box_spec(), nodes[i].bbox_spec(), r, t_min, t_max);
            s.lemma_hit_wf(r, t_min, t_max);
            assert(t.wf());
        },
    }
    match nodes[i] {
        BvhNode::Leaf { .. } => {
            lemma_le_refl(t);
        },
        BvhNode::Inner { left, right, .. } => {
            lemma_trace_wf(shapes, nodes, left as int, r, t_min, t_max);
            lemma_trace_range(shapes, nodes, left as int, r, t_min, t_max);
            let hl = trace(shapes, nodes, left as int, r, t_min, t_max);
            let bound = match hl {
                Some(h) => h.t,
                None => t_max,
            };
            lemma_trace_range(shapes, nodes, right as int, r, t_min, bound);
            lemma_trace_wf(shapes, nodes, right as int, r, t_min, bound);
            let hr = trace(shapes, nodes, right as int, r, t_min, bound);
            if in_tree(nodes, left as int, p) {
                lemma_trace_nearest(shapes, nodes, left as int, r, t_min, t_max, p, t);
                if hr is Some {
                    lemma_le_trans(hr.unwrap().t, bound, t);
                }
            } else {
                match hl {
                    None => {
                        lemma_trace_nearest(shapes, nodes, right as int, r, t_min, t_max, p, t);
                    },
                    Some(h1) => {
                        if t.lt(h1.t) {
                            match shapes[p] {
                                Shape::Sphere(s) => {
                                    lemma_shrink_interval(s, r, t_min, t_max, h1.t);
                                },
                            }
                            lemma_trace_nearest(shapes, nodes, right as int, r, t_min, h1.t, p, t);
                        } else {
                            lemma_lt_total(t, h1.t);
                            if hr is Some {
                                lemma_le_trans(hr.unwrap().t, h1.t, t);
                            }
                        }
                    },
                }
            }
        },
    }
}

/// The hierarchy finds the globally nearest hit: where any shape of a
/// built hierarchy reports a hit strictly inside `(t_min, t_max)` at `t`,
/// traversal from the root reports a hit within `[t_min, t_max]` at `t` or
/// nearer.
pub proof fn lemma_bvh_nearest(b: Bvh, r: Ray, t_min: Frac, t_max: Frac, p: int, t: Frac)
    requires
        b.wf(),
        b.covers(),
        r.wf(),
        t_min.wf(),
        t_max.wf(),
        0 <= p < b.shapes@.len(),
        shape_hits_at(b.shapes@[p], r, t_min, t_max, t),
    ensures
        trace(b.shapes@, b.nodes@, b.root(), r, t_min, t_max) matches Some(h) && h.t.le(t)
            && t_min.le(h.t) && h.t.le(t_max),
{
    assert(in_tree(b.nodes@, b.root(), p));
    lemma_trace_nearest(b.shapes@, b.nodes@, b.root(), r, t_min, t_max, p, t);
    lemma_trace_range(b.shapes@, b.nodes@, b.root(), r, t_min, t_max);
}

} // verus!
