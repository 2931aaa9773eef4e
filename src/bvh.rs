use vstd::multiset::Multiset;
use vstd::prelude::*;
use vstd::seq_lib::{group_to_multiset_ensures, lemma_multiset_commutative};

verus! {

broadcast use group_to_multiset_ensures;

/// A point in space, one integer per axis, each encoded so that the order of
/// the integers is the order of the coordinates.
pub type Corner = (i64, i64, i64);

/// An axis-aligned bounding box, by its minimum and maximum corners.
#[derive(Clone, Copy, Debug, PartialEq, Eq)]
pub struct Bounds {
    pub min: Corner,
    pub max: Corner,
}

/// The coordinate of a corner on axis 0, 1 or 2.
pub open spec fn coord(c: Corner, axis: nat) -> i64 {
    if axis == 0 {
        c.0
    } else if axis == 1 {
        c.1
    } else {
        c.2
    }
}

/// The smallest box that holds both `a` and `b`.
pub open spec fn union(a: Bounds, b: Bounds) -> Bounds {
    Bounds {
        min: (min_i64(a.min.0, b.min.0), min_i64(a.min.1, b.min.1), min_i64(a.min.2, b.min.2)),
        max: (max_i64(a.max.0, b.max.0), max_i64(a.max.1, b.max.1), max_i64(a.max.2, b.max.2)),
    }
}

pub open spec fn min_i64(x: i64, y: i64) -> i64 {
    if x <= y {
        x
    } else {
        y
    }
}

pub open spec fn max_i64(x: i64, y: i64) -> i64 {
    if x >= y {
        x
    } else {
        y
    }
}

/// `outer` holds `inner` on every axis.
pub open spec fn encloses(outer: Bounds, inner: Bounds) -> bool {
    &&& outer.min.0 <= inner.min.0 && inner.max.0 <= outer.max.0
    &&& outer.min.1 <= inner.min.1 && inner.max.1 <= outer.max.1
    &&& outer.min.2 <= inner.min.2 && inner.max.2 <= outer.max.2
}

/// Some primitive of `s` has the same minimum as `b` on `axis`.
pub open spec fn min_attained(b: Bounds, s: Seq<usize>, bounds: Seq<Bounds>, axis: nat) -> bool {
    exists|i: int| 0 <= i < s.len() && #[trigger] coord(bounds[s[i] as int].min, axis) == coord(b.min, axis)
}

/// Some primitive of `s` has the same maximum as `b` on `axis`.
pub open spec fn max_attained(b: Bounds, s: Seq<usize>, bounds: Seq<Bounds>, axis: nat) -> bool {
    exists|i: int| 0 <= i < s.len() && #[trigger] coord(bounds[s[i] as int].max, axis) == coord(b.max, axis)
}

/// `b` is the union of the boxes of the primitives of `s`: it holds each of
/// them, and each of its six faces is a face of one of them.
pub open spec fn is_union_of(b: Bounds, s: Seq<usize>, bounds: Seq<Bounds>) -> bool {
    &&& forall|i: int| 0 <= i < s.len() ==> encloses(b, #[trigger] bounds[s[i] as int])
    &&& forall|axis: nat| axis < 3 ==> #[trigger] min_attained(b, s, bounds, axis)
    &&& forall|axis: nat| axis < 3 ==> #[trigger] max_attained(b, s, bounds, axis)
}

/// The shape of a bounding volume hierarchy over primitives numbered from 0.
/// A leaf names one primitive; an internal node has its box and always two
/// children.
#[derive(Debug, PartialEq, Eq)]
pub enum BvhNode {
    Leaf(usize),
    Internal(Bounds, Box<BvhNode>, Box<BvhNode>),
}

/// A hierarchy over all the primitives of a scene.
#[derive(Debug, PartialEq, Eq)]
pub struct BvhTree {
    pub root: BvhNode,
}

/// The primitives under a node, left to right.
pub open spec fn leaves(node: BvhNode) -> Seq<usize>
    decreases node,
{
    match node {
        BvhNode::Leaf(p) => seq![p],
        BvhNode::Internal(_, l, r) => leaves(*l) + leaves(*r),
    }
}

/// The box of a node: that of its primitive for a leaf.
pub open spec fn bounds_of(node: BvhNode, bounds: Seq<Bounds>) -> Bounds {
    match node {
        BvhNode::Leaf(p) => bounds[p as int],
        BvhNode::Internal(b, _, _) => b,
    }
}

/// The box of every internal node is the union of its children's boxes.
pub open spec fn boxes_exact(node: BvhNode, bounds: Seq<Bounds>) -> bool
    decreases node,
{
    match node {
        BvhNode::Leaf(_) => true,
        BvhNode::Internal(b, l, r) => {
            &&& b == union(bounds_of(*l, bounds), bounds_of(*r, bounds))
            &&& boxes_exact(*l, bounds)
            &&& boxes_exact(*r, bounds)
        },
    }
}

/// Every primitive of `a` has a box whose minimum on `axis` is no larger
/// than that of any primitive of `b`.
pub open spec fn split_on(bounds: Seq<Bounds>, axis: nat, a: Seq<usize>, b: Seq<usize>) -> bool {
    forall|i: int, j: int|
        0 <= i < a.len() && 0 <= j < b.len() ==> #[trigger] coord(bounds[a[i] as int].min, axis)
            <= #[trigger] coord(bounds[b[j] as int].min, axis)
}

/// `s` is ordered by the minimum of each primitive's box on `axis`.
pub open spec fn sorted_on(bounds: Seq<Bounds>, axis: nat, s: Seq<usize>) -> bool {
    forall|i: int, j: int|
        0 <= i < j < s.len() ==> #[trigger] coord(bounds[s[i] as int].min, axis) <= #[trigger] coord(
            bounds[s[j] as int].min,
            axis,
        )
}

/// A median split hierarchy: two primitives make an internal node with two
/// leaves; three or more are split, on some axis, into the lower half (of
/// size `n / 2`) and the upper half by box minimum, each again a median
/// split.
pub open spec fn median_split(node: BvhNode, bounds: Seq<Bounds>) -> bool
    decreases node,
{
    match node {
        BvhNode::Leaf(_) => true,
        BvhNode::Internal(_, l, r) => {
            let n = leaves(*l).len() + leaves(*r).len();
            &&& median_split(*l, bounds)
            &&& median_split(*r, bounds)
            &&& n == 2 ==> (*l) is Leaf && (*r) is Leaf
            &&& n >= 3 ==> leaves(*l).len() == n / 2 && exists|axis: nat|
                axis < 3 && #[trigger] split_on(bounds, axis, leaves(*l), leaves(*r))
        },
    }
}

fn corner_coord(c: &Corner, axis: usize) -> (r: i64)
    ensures
        r == coord(*c, axis as nat),
{
    if axis == 0 {
        c.0
    } else if axis == 1 {
        c.1
    } else {
        c.2
    }
}

/// Orders `items` by the minimum of their boxes on `axis`, keeping each of
/// them.
fn sort_on_axis(items: Vec<usize>, bounds: &Vec<Bounds>, axis: usize) -> (r: Vec<usize>)
    requires
        forall|i: int| 0 <= i < items@.len() ==> items@[i] < bounds@.len(),
    ensures
        r@.to_multiset() == items@.to_multiset(),
        sorted_on(bounds@, axis as nat, r@),
        forall|i: int| 0 <= i < r@.len() ==> r@[i] < bounds@.len(),
{
    let ghost ax = axis as nat;
    let mut rest = items;
    let mut out: Vec<usize> = Vec::new();
    while rest.len() > 0
        invariant
            ax == axis as nat,
            out@.to_multiset().add(rest@.to_multiset()) == items@.to_multiset(),
            sorted_on(bounds@, ax, out@),
            forall|i: int| 0 <= i < rest@.len() ==> rest@[i] < bounds@.len(),
            forall|i: int| 0 <= i < out@.len() ==> out@[i] < bounds@.len(),
            forall|i: int, j: int|
                0 <= i < out@.len() && 0 <= j < rest@.len() ==> #[trigger] coord(
                    bounds@[out@[i] as int].min,
                    ax,
                ) <= #[trigger] coord(bounds@[rest@[j] as int].min, ax),
        decreases rest@.len(),
    {
        let mut m: usize = 0;
        let mut j: usize = 1;
        while j < rest.len()
            invariant
                ax == axis as nat,
                0 < rest@.len(),
                m < j <= rest@.len(),
                forall|i: int| 0 <= i < rest@.len() ==> rest@[i] < bounds@.len(),
                forall|i: int|
                    0 <= i < j ==> coord(bounds@[rest@[m as int] as int].min, ax) <= #[trigger] coord(
                        bounds@[rest@[i] as int].min,
                        ax,
                    ),
            decreases rest@.len() - j,
        {
            let ghost m0 = m;
            if corner_coord(&bounds[rest[j]].min, axis) < corner_coord(&bounds[rest[m]].min, axis) {
                m = j;
            }
            proof {
                assert forall|i: int| 0 <= i < j + 1 implies coord(
                    bounds@[rest@[m as int] as int].min,
                    ax,
                ) <= #[trigger] coord(bounds@[rest@[i] as int].min, ax) by {
                    if i < j {
                        assert(coord(bounds@[rest@[m0 as int] as int].min, ax) <= coord(
                            bounds@[rest@[i] as int].min,
                            ax,
                        ));
                    }
                }
            }
            j = j + 1;
        }
        let ghost old_rest = rest@;
        let ghost old_out = out@;
        let x = rest.remove(m);
        out.push(x);
        proof {
            assert(old_rest.remove(m as int).to_multiset() == old_rest.to_multiset().remove(x));
            assert(old_out.push(x).to_multiset() == old_out.to_multiset().insert(x));
            assert(old_rest.to_multiset().count(x) > 0);
            assert(out@.to_multiset().add(rest@.to_multiset()) =~= old_out.to_multiset().add(
                old_rest.to_multiset(),
            ));
            assert forall|i: int, k: int|
                0 <= i < out@.len() && 0 <= k < rest@.len() implies #[trigger] coord(
                    bounds@[out@[i] as int].min,
                    ax,
                ) <= #[trigger] coord(bounds@[rest@[k] as int].min, ax) by {
                let k0 = if k < m { k } else { k + 1 };
                assert(rest@[k] == old_rest[k0]);
            }
        }
    }
    proof {
        assert(rest@.to_multiset() =~= Multiset::empty());
        assert(out@.to_multiset().add(rest@.to_multiset()) =~= out@.to_multiset());
    }
    out
}

/// The union of two boxes.
fn union_bounds(a: &Bounds, b: &Bounds) -> (r: Bounds)
    ensures
        r == union(*a, *b),
{
    Bounds {
        min: (
            if a.min.0 <= b.min.0 { a.min.0 } else { b.min.0 },
            if a.min.1 <= b.min.1 { a.min.1 } else { b.min.1 },
            if a.min.2 <= b.min.2 { a.min.2 } else { b.min.2 },
        ),
        max: (
            if a.max.0 >= b.max.0 { a.max.0 } else { b.max.0 },
            if a.max.1 >= b.max.1 { a.max.1 } else { b.max.1 },
            if a.max.2 >= b.max.2 { a.max.2 } else { b.max.2 },
        ),
    }
}

/// The box of a node.
fn node_bounds(node: &BvhNode, bounds: &Vec<Bounds>) -> (r: Bounds)
    requires
        node matches BvhNode::Leaf(p) ==> p < bounds@.len(),
    ensures
        r == bounds_of(*node, bounds@),
{
    match node {
        BvhNode::Leaf(p) => bounds[*p],
        BvhNode::Internal(b, _, _) => *b,
    }
}

proof fn lemma_leaf_is_union(p: usize, bounds: Seq<Bounds>)
    ensures
        is_union_of(bounds[p as int], seq![p], bounds),
{
    let s = seq![p];
    assert(s[0] == p);
    assert forall|axis: nat| axis < 3 implies #[trigger] min_attained(bounds[p as int], s, bounds, axis) by {
        assert(coord(bounds[s[0] as int].min, axis) == coord(bounds[p as int].min, axis));
    }
    assert forall|axis: nat| axis < 3 implies #[trigger] max_attained(bounds[p as int], s, bounds, axis) by {
        assert(coord(bounds[s[0] as int].max, axis) == coord(bounds[p as int].max, axis));
    }
}

proof fn lemma_coord_union(a: Bounds, b: Bounds, axis: nat)
    ensures
        coord(union(a, b).min, axis) == min_i64(coord(a.min, axis), coord(b.min, axis)),
        coord(union(a, b).max, axis) == max_i64(coord(a.max, axis), coord(b.max, axis)),
{
}

proof fn lemma_union_of_concat(
    a: Bounds,
    l: Seq<usize>,
    b: Bounds,
    r: Seq<usize>,
    bounds: Seq<Bounds>,
)
    requires
        is_union_of(a, l, bounds),
        is_union_of(b, r, bounds),
    ensures
        is_union_of(union(a, b), l + r, bounds),
{
    let u = union(a, b);
    let s = l + r;
    assert forall|i: int| 0 <= i < s.len() implies encloses(u, #[trigger] bounds[s[i] as int]) by {
        if i < l.len() {
            assert(s[i] == l[i]);
        } else {
            assert(s[i] == r[i - l.len()]);
        }
    }
    assert forall|axis: nat| axis < 3 implies #[trigger] min_attained(u, s, bounds, axis) by {
        lemma_coord_union(a, b, axis);
        assert(min_attained(a, l, bounds, axis) && min_attained(b, r, bounds, axis));
        if coord(a.min, axis) <= coord(b.min, axis) {
            let i = choose|i: int|
                0 <= i < l.len() && #[trigger] coord(bounds[l[i] as int].min, axis) == coord(
                    a.min,
                    axis,
                );
            assert(s[i] == l[i]);
        } else {
            let j = choose|j: int|
                0 <= j < r.len() && #[trigger] coord(bounds[r[j] as int].min, axis) == coord(
                    b.min,
                    axis,
                );
            assert(s[l.len() + j] == r[j]);
        }
    }
    assert forall|axis: nat| axis < 3 implies #[trigger] max_attained(u, s, bounds, axis) by {
        lemma_coord_union(a, b, axis);
        assert(max_attained(a, l, bounds, axis) && max_attained(b, r, bounds, axis));
        if coord(a.max, axis) >= coord(b.max, axis) {
            let i = choose|i: int|
                0 <= i < l.len() && #[trigger] coord(bounds[l[i] as int].max, axis) == coord(
                    a.max,
                    axis,
                );
            assert(s[i] == l[i]);
        } else {
            let j = choose|j: int|
                0 <= j < r.len() && #[trigger] coord(bounds[r[j] as int].max, axis) == coord(
                    b.max,
                    axis,
                );
            assert(s[l.len() + j] == r[j]);
        }
    }
}

/// Where the box of every internal node is the union of its children's
/// boxes, the box of a node is the union of the boxes of all its primitives.
pub proof fn lemma_node_box_is_union(node: BvhNode, bounds: Seq<Bounds>)
    requires
        boxes_exact(node, bounds),
    ensures
        is_union_of(bounds_of(node, bounds), leaves(node), bounds),
    decreases node,
{
    match node {
        BvhNode::Leaf(p) => lemma_leaf_is_union(p, bounds),
        BvhNode::Internal(_, l, r) => {
            lemma_node_box_is_union(*l, bounds);
            lemma_node_box_is_union(*r, bounds);
            lemma_union_of_concat(
                bounds_of(*l, bounds),
                leaves(*l),
                bounds_of(*r, bounds),
                leaves(*r),
                bounds,
            );
        },
    }
}

/// Builds the hierarchy over `items`, taking the split axes from `axes`
/// starting at `*next`, one for each node over three or more primitives, in
/// the order in which those nodes are first visited (parent, left, right).
fn build_bvh_tree(items: Vec<usize>, bounds: &Vec<Bounds>, axes: &Vec<u8>, next: &mut usize) -> (r:
    BvhNode)
    requires
        items@.len() >= 1,
        forall|i: int| 0 <= i < items@.len() ==> items@[i] < bounds@.len(),
        forall|i: int| 0 <= i < axes@.len() ==> axes@[i] < 3,
        *old(next) + items@.len() <= axes@.len() + 1,
    ensures
        leaves(r).to_multiset() == items@.to_multiset(),
        forall|i: int| 0 <= i < leaves(r).len() ==> leaves(r)[i] < bounds@.len(),
        median_split(r, bounds@),
        boxes_exact(r, bounds@),
        items@.len() == 1 ==> r == BvhNode::Leaf(items@[0]),
        items@.len() == 2 ==> leaves(r) == items@,
        *old(next) <= *final(next) <= *old(next) + items@.len() - 1,
    decreases items@.len(),
{
    let n = items.len();
    if n == 1 {
        let p = items[0];
        assert(leaves(BvhNode::Leaf(p)) =~= items@);
        return BvhNode::Leaf(p);
    }
    if n == 2 {
        let a = items[0];
        let b = items[1];
        let both = union_bounds(&bounds[a], &bounds[b]);
        let node = BvhNode::Internal(both, Box::new(BvhNode::Leaf(a)), Box::new(BvhNode::Leaf(b)));
        assert(leaves(BvhNode::Leaf(a)) == seq![a]);
        assert(leaves(BvhNode::Leaf(b)) == seq![b]);
        assert(leaves(node) =~= items@);
        assert(median_split(BvhNode::Leaf(a), bounds@) && median_split(BvhNode::Leaf(b), bounds@));
        assert(boxes_exact(BvhNode::Leaf(a), bounds@) && boxes_exact(BvhNode::Leaf(b), bounds@));
        return node;
    }
    let n_axes = axes.len();
    assert(*next < n_axes);
    let axis = axes[*next] as usize;
    *next = *next + 1;
    let ghost ax = axis as nat;
    let mut lower = sort_on_axis(items, bounds, axis);
    let ghost sorted = lower@;
    assert(lower@.len() == lower@.to_multiset().len());
    assert(items@.len() == items@.to_multiset().len());
    let upper = lower.split_off(n / 2);
    proof {
        assert(sorted =~= lower@ + upper@);
        lemma_multiset_commutative(lower@, upper@);
    }
    let left = build_bvh_tree(lower, bounds, axes, next);
    let right = build_bvh_tree(upper, bounds, axes, next);
    proof {
        assert(leaves(left).len() > 0 && leaves(left)[0] < bounds@.len());
        assert(leaves(right).len() > 0 && leaves(right)[0] < bounds@.len());
        if left is Leaf {
            assert(leaves(left) == seq![left->Leaf_0]);
        }
        if right is Leaf {
            assert(leaves(right) == seq![right->Leaf_0]);
        }
    }
    let lb = node_bounds(&left, bounds);
    let rb = node_bounds(&right, bounds);
    let both = union_bounds(&lb, &rb);
    let node = BvhNode::Internal(both, Box::new(left), Box::new(right));
    proof {
        let ll = leaves(left);
        let rl = leaves(right);
        lemma_multiset_commutative(ll, rl);
        assert(leaves(node) == ll + rl);
        assert(ll.len() == ll.to_multiset().len());
        assert(rl.len() == rl.to_multiset().len());
        assert(lower@.len() == lower@.to_multiset().len());
        assert(upper@.len() == upper@.to_multiset().len());
        assert forall|i: int| 0 <= i < leaves(node).len() implies leaves(node)[i] < bounds@.len() by {
            if i >= ll.len() {
                assert(leaves(node)[i] == rl[i - ll.len()]);
            }
        }
        assert forall|i: int, j: int|
            0 <= i < ll.len() && 0 <= j < rl.len() implies #[trigger] coord(
                bounds@[ll[i] as int].min,
                ax,
            ) <= #[trigger] coord(bounds@[rl[j] as int].min, ax) by {
            assert(ll.to_multiset().count(ll[i]) > 0);
            assert(lower@.contains(ll[i]));
            let i0 = choose|i0: int| 0 <= i0 < lower@.len() && lower@[i0] == ll[i];
            assert(rl.to_multiset().count(rl[j]) > 0);
            assert(upper@.contains(rl[j]));
            let j0 = choose|j0: int| 0 <= j0 < upper@.len() && upper@[j0] == rl[j];
            assert(sorted[i0] == ll[i]);
            assert(sorted[lower@.len() + j0] == rl[j]);
        }
        assert(split_on(bounds@, ax, ll, rl));
    }
    node
}

impl BvhTree {
    /// Builds the hierarchy over primitives `0 .. bounds.len()`, whose boxes
    /// `bounds` holds, drawing split axes from `axes` as it goes. The box of
    /// the root is the union of the boxes of all the primitives.
    pub fn build(bounds: &Vec<Bounds>, axes: &Vec<u8>) -> (r: BvhTree)
        requires
            bounds@.len() >= 1,
            axes@.len() >= bounds@.len(),
            forall|i: int| 0 <= i < axes@.len() ==> axes@[i] < 3,
        ensures
            leaves(r.root).len() == bounds@.len(),
            forall|p: usize| p < bounds@.len() ==> #[trigger] leaves(r.root).to_multiset().count(p) == 1,
            forall|i: int| 0 <= i < leaves(r.root).len() ==> leaves(r.root)[i] < bounds@.len(),
            median_split(r.root, bounds@),
            boxes_exact(r.root, bounds@),
    {
        let n = bounds.len();
        let mut items: Vec<usize> = Vec::new();
        let mut k: usize = 0;
        while k < n
            invariant
                k <= n == bounds@.len(),
                items@.len() == k,
                forall|i: int| 0 <= i < k ==> items@[i] == i,
                forall|p: usize| #[trigger] items@.to_multiset().count(p) == if p < k { 1nat } else { 0 },
            decreases n - k,
        {
            let ghost before = items@;
            items.push(k);
            assert(items@ == before.push(k));
            k = k + 1;
        }
        let mut next: usize = 0;
        let root = build_bvh_tree(items, bounds, axes, &mut next);
        proof {
            let l = leaves(root);
            assert(l.len() == l.to_multiset().len());
            assert(items@.len() == items@.to_multiset().len());
        }
        BvhTree { root }
    }

    /// The box of the root.
    pub fn bounding_box(&self, bounds: &Vec<Bounds>) -> (r: Bounds)
        requires
            self.root matches BvhNode::Leaf(p) ==> p < bounds@.len(),
        ensures
            r == bounds_of(self.root, bounds@),
    {
        node_bounds(&self.root, bounds)
    }
}

/// The primitives `0 .. n`.
pub open spec fn all_primitives(n: nat) -> Seq<usize> {
    Seq::new(n, |i: int| i as usize)
}

/// The box of the root of a hierarchy over primitives `0 .. n` whose boxes
/// are exact is the union of the boxes of all `n` primitives: it holds each
/// of them, and each of its faces is a face of one of them.
pub proof fn lemma_root_box_is_union_of_all(tree: BvhTree, bounds: Seq<Bounds>)
    requires
        bounds.len() <= usize::MAX,
        boxes_exact(tree.root, bounds),
        leaves(tree.root).len() == bounds.len(),
        forall|p: usize| p < bounds.len() ==> #[trigger] leaves(tree.root).to_multiset().count(p) == 1,
        forall|i: int| 0 <= i < leaves(tree.root).len() ==> leaves(tree.root)[i] < bounds.len(),
    ensures
        is_union_of(bounds_of(tree.root, bounds), all_primitives(bounds.len()), bounds),
{
    let s = leaves(tree.root);
    let all = all_primitives(bounds.len());
    let b = bounds_of(tree.root, bounds);
    lemma_node_box_is_union(tree.root, bounds);
    assert forall|p: int| 0 <= p < all.len() implies encloses(b, #[trigger] bounds[all[p] as int]) by {
        assert(all[p] == p);
        assert(s.to_multiset().count(p as usize) > 0);
        assert(s.contains(p as usize));
        let k = choose|k: int| 0 <= k < s.len() && s[k] == p as usize;
        assert(encloses(b, bounds[s[k] as int]));
    }
    assert forall|axis: nat| axis < 3 implies #[trigger] min_attained(b, all, bounds, axis) by {
        assert(min_attained(b, s, bounds, axis));
        let i = choose|i: int| 0 <= i < s.len() && #[trigger] coord(bounds[s[i] as int].min, axis) == coord(b.min, axis);
        assert(all[s[i] as int] == s[i]);
    }
    assert forall|axis: nat| axis < 3 implies #[trigger] max_attained(b, all, bounds, axis) by {
        assert(max_attained(b, s, bounds, axis));
        let i = choose|i: int| 0 <= i < s.len() && #[trigger] coord(bounds[s[i] as int].max, axis) == coord(b.max, axis);
        assert(all[s[i] as int] == s[i]);
    }
}

/// What a hierarchy asks of the scene while it answers one ray's query over
/// an interval of `t`: whether the ray meets a bounding box within the
/// interval, and where it first meets a primitive within it.
/// The place is given as a key whose order is the order of `t`.
pub trait SceneProbe {
    spec fn overlaps_spec(&self, b: Bounds) -> bool;

    spec fn hit_spec(&self, primitive: usize) -> Option<u32>;

    fn overlaps(&self, b: &Bounds) -> (r: bool)
        ensures
            r == self.overlaps_spec(*b),
    ;

    fn hit(&self, primitive: usize) -> (r: Option<u32>)
        ensures
            r == self.hit_spec(primitive),
    ;
}

fn same_bounds(a: &Bounds, b: &Bounds) -> (r: bool)
    ensures
        r == (*a == *b),
{
    a.min.0 == b.min.0 && a.min.1 == b.min.1 && a.min.2 == b.min.2 && a.max.0 == b.max.0 && a.max.1
        == b.max.1 && a.max.2 == b.max.2
}

/// A probe whose answers were worked out beforehand: the ray misses the
/// boxes of `missed` and meets every other box, and `hits[p]` is its hit of
/// primitive `p`. A primitive outside the table is not hit.
#[derive(Clone, Debug, PartialEq, Eq)]
pub struct ProbeTable {
    pub missed: Vec<Bounds>,
    pub hits: Vec<Option<u32>>,
}

impl SceneProbe for ProbeTable {
    open spec fn overlaps_spec(&self, b: Bounds) -> bool {
        !self.missed@.contains(b)
    }

    open spec fn hit_spec(&self, primitive: usize) -> Option<u32> {
        if primitive < self.hits@.len() {
            self.hits@[primitive as int]
        } else {
            None
        }
    }

    fn overlaps(&self, b: &Bounds) -> (r: bool) {
        let mut i: usize = 0;
        while i < self.missed.len()
            invariant
                i <= self.missed@.len(),
                forall|k: int| 0 <= k < i ==> self.missed@[k] != *b,
            decreases self.missed@.len() - i,
        {
            if same_bounds(&self.missed[i], b) {
                return false;
            }
            i = i + 1;
        }
        true
    }

    fn hit(&self, primitive: usize) -> (r: Option<u32>) {
        if primitive < self.hits.len() {
            self.hits[primitive]
        } else {
            None
        }
    }
}

/// The hit of one primitive, as a primitive and a key.
pub open spec fn hit_of<P: SceneProbe>(probe: P, primitive: usize) -> Option<(usize, u32)> {
    match probe.hit_spec(primitive) {
        Some(t) => Some((primitive, t)),
        None => None,
    }
}

/// The nearer of two hits; the second where they are equally near.
pub open spec fn closer(a: Option<(usize, u32)>, b: Option<(usize, u32)>) -> Option<(usize, u32)> {
    match (a, b) {
        (Some(x), Some(y)) => if x.1 < y.1 {
            a
        } else {
            b
        },
        (Some(_), None) => a,
        _ => b,
    }
}

/// What a query of `node` finds: nothing where the ray misses the node's
/// box, else the nearer of what its two children find.
pub open spec fn traverse<P: SceneProbe>(node: BvhNode, probe: P) -> Option<(usize, u32)>
    decreases node,
{
    match node {
        BvhNode::Leaf(p) => hit_of(probe, p),
        BvhNode::Internal(b, l, r) => if probe.overlaps_spec(b) {
            closer(traverse(*l, probe), traverse(*r, probe))
        } else {
            None
        },
    }
}

/// A brute-force scan of the primitives of `s`: the nearest hit, the later
/// one where two are equally near.
pub open spec fn scan<P: SceneProbe>(s: Seq<usize>, probe: P) -> Option<(usize, u32)>
    decreases s.len(),
{
    if s.len() == 0 {
        None
    } else {
        closer(scan(s.drop_last(), probe), hit_of(probe, s.last()))
    }
}

/// Box tests never prune a hit: where the ray misses the box of a node, it
/// hits no primitive under that node.
pub open spec fn pruning_sound<P: SceneProbe>(node: BvhNode, probe: P) -> bool
    decreases node,
{
    match node {
        BvhNode::Leaf(_) => true,
        BvhNode::Internal(b, l, r) => {
            &&& !probe.overlaps_spec(b) ==> forall|i: int|
                0 <= i < leaves(node).len() ==> #[trigger] probe.hit_spec(leaves(node)[i]) is None
            &&& pruning_sound(*l, probe)
            &&& pruning_sound(*r, probe)
        },
    }
}

impl BvhNode {
    /// The nearest hit under this node: the primitive and its key.
    pub fn hit<P: SceneProbe>(&self, probe: &P) -> (r: Option<(usize, u32)>)
        ensures
            r == traverse(*self, *probe),
        decreases self,
    {
        match self {
            BvhNode::Leaf(p) => match probe.hit(*p) {
                Some(t) => Some((*p, t)),
                None => None,
            },
            BvhNode::Internal(b, l, r) => {
                if probe.overlaps(b) {
                    let hit_left = l.hit(probe);
                    let hit_right = r.hit(probe);
                    match (hit_left, hit_right) {
                        (Some(a), Some(b)) => if a.1 < b.1 {
                            hit_left
                        } else {
                            hit_right
                        },
                        (Some(_), None) => hit_left,
                        _ => hit_right,
                    }
                } else {
                    None
                }
            },
        }
    }
}

impl BvhTree {
    /// The nearest hit in the scene: the primitive and its key.
    pub fn hit<P: SceneProbe>(&self, probe: &P) -> (r: Option<(usize, u32)>)
        ensures
            r == traverse(self.root, *probe),
    {
        self.root.hit(probe)
    }
}

proof fn lemma_closer_associative(
    a: Option<(usize, u32)>,
    b: Option<(usize, u32)>,
    c: Option<(usize, u32)>,
)
    ensures
        closer(closer(a, b), c) == closer(a, closer(b, c)),
{
}

proof fn lemma_scan_concat<P: SceneProbe>(s: Seq<usize>, t: Seq<usize>, probe: P)
    ensures
        scan(s + t, probe) == closer(scan(s, probe), scan(t, probe)),
    decreases t.len(),
{
    if t.len() == 0 {
        assert(s + t =~= s);
    } else {
        assert((s + t).drop_last() =~= s + t.drop_last());
        assert((s + t).last() == t.last());
        lemma_scan_concat(s, t.drop_last(), probe);
        lemma_closer_associative(scan(s, probe), scan(t.drop_last(), probe), hit_of(probe, t.last()));
    }
}

proof fn lemma_scan_none<P: SceneProbe>(s: Seq<usize>, probe: P)
    requires
        forall|i: int| 0 <= i < s.len() ==> #[trigger] probe.hit_spec(s[i]) is None,
    ensures
        scan(s, probe) is None,
    decreases s.len(),
{
    if s.len() > 0 {
        assert(probe.hit_spec(s[s.len() - 1]) is None);
        lemma_scan_none(s.drop_last(), probe);
    }
}

/// Where box tests never prune a hit, a query of the hierarchy finds
/// exactly what a brute-force scan of its primitives finds.
pub proof fn lemma_hit_matches_scan<P: SceneProbe>(node: BvhNode, probe: P)
    requires
        pruning_sound(node, probe),
    ensures
        traverse(node, probe) == scan(leaves(node), probe),
    decreases node,
{
    match node {
        BvhNode::Leaf(p) => {
            assert(leaves(node) == seq![p]);
            assert(leaves(node).drop_last() =~= Seq::<usize>::empty());
            assert(scan(Seq::<usize>::empty(), probe) is None);
            assert(leaves(node).last() == p);
        },
        BvhNode::Internal(b, l, r) => {
            lemma_hit_matches_scan(*l, probe);
            lemma_hit_matches_scan(*r, probe);
            lemma_scan_concat(leaves(*l), leaves(*r), probe);
            if !probe.overlaps_spec(b) {
                lemma_scan_none(leaves(node), probe);
            }
        },
    }
}

/// A brute-force scan finds nothing exactly when no primitive is hit, and
/// otherwise a hit primitive whose key is no larger than any other's.
pub proof fn lemma_scan_is_nearest<P: SceneProbe>(s: Seq<usize>, probe: P)
    ensures
        scan(s, probe) is None <==> forall|i: int|
            0 <= i < s.len() ==> #[trigger] probe.hit_spec(s[i]) is None,
        scan(s, probe) matches Some(h) ==> {
            &&& s.contains(h.0)
            &&& probe.hit_spec(h.0) == Some(h.1)
            &&& forall|i: int|
                0 <= i < s.len() && #[trigger] probe.hit_spec(s[i]) is Some ==> h.1
                    <= probe.hit_spec(s[i])->Some_0
        },
    decreases s.len(),
{
    if s.len() > 0 {
        let d = s.drop_last();
        lemma_scan_is_nearest(d, probe);
        assert forall|i: int| 0 <= i < d.len() implies d[i] == s[i] by {}
        if scan(s, probe) is None {
            assert forall|i: int| 0 <= i < s.len() implies #[trigger] probe.hit_spec(s[i]) is None by {
                if i < d.len() {
                    assert(d[i] == s[i]);
                }
            }
        }
        if let Some(h) = scan(s, probe) {
            if h == scan(d, probe)->Some_0 && scan(d, probe) is Some {
                assert(d.contains(h.0));
                let k = choose|k: int| 0 <= k < d.len() && d[k] == h.0;
                assert(s[k] == h.0);
            } else {
                assert(s[s.len() - 1] == h.0);
            }
            assert forall|i: int|
                0 <= i < s.len() && #[trigger] probe.hit_spec(s[i]) is Some implies h.1
                    <= probe.hit_spec(s[i])->Some_0 by {
                if i < d.len() {
                    assert(d[i] == s[i]);
                }
            }
        }
    }
}

/// For a hierarchy over primitives `0 .. n` whose box tests never prune a
/// hit, a query finds nothing exactly when no primitive is hit, and otherwise
/// a hit primitive whose key is no larger than that of any primitive hit.
pub proof fn lemma_tree_hit_is_nearest<P: SceneProbe>(tree: BvhTree, probe: P, n: nat)
    requires
        pruning_sound(tree.root, probe),
        leaves(tree.root).len() == n,
        forall|p: usize| p < n ==> #[trigger] leaves(tree.root).to_multiset().count(p) == 1,
        forall|i: int| 0 <= i < n ==> leaves(tree.root)[i] < n,
    ensures
        traverse(tree.root, probe) is None <==> forall|p: usize|
            p < n ==> #[trigger] probe.hit_spec(p) is None,
        traverse(tree.root, probe) matches Some(h) ==> {
            &&& h.0 < n
            &&& probe.hit_spec(h.0) == Some(h.1)
            &&& forall|p: usize|
                p < n && #[trigger] probe.hit_spec(p) is Some ==> h.1 <= probe.hit_spec(p)->Some_0
        },
{
    let s = leaves(tree.root);
    lemma_hit_matches_scan(tree.root, probe);
    lemma_scan_is_nearest(s, probe);
    assert(s.len() == s.to_multiset().len());
    assert forall|p: usize| p < n implies s.contains(p) by {
        assert(s.to_multiset().count(p) > 0);
    }
    if traverse(tree.root, probe) is None {
        assert forall|p: usize| p < n implies #[trigger] probe.hit_spec(p) is None by {
            assert(s.contains(p));
            let k = choose|k: int| 0 <= k < s.len() && s[k] == p;
            assert(probe.hit_spec(s[k]) is None);
        }
    }
    if let Some(h) = traverse(tree.root, probe) {
        assert forall|p: usize|
            p < n && #[trigger] probe.hit_spec(p) is Some implies h.1 <= probe.hit_spec(p)->Some_0 by {
            assert(s.contains(p));
            let k = choose|k: int| 0 <= k < s.len() && s[k] == p;
            assert(probe.hit_spec(s[k]) is Some);
        }
    }
}

} // verus!
