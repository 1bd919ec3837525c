//! The bounding-volume hierarchy: a binary tree of boxes over the surfaces of
//! a scene, held as an arena in which every node's children come before it.
use vstd::prelude::*;
use rand::Rng;
use crate::aabb::{AABB, lemma_union_contains, lemma_contains_trans};
use crate::hitable::{Hit, deterministic, is_nearest, all_items, lemma_nearer_concat, nearer};

verus! {

broadcast use vstd::seq_lib::group_to_multiset_ensures;

/// Relies on rand's `thread_rng` and `Rng::gen_range`: a value drawn from
/// `0..3`, which is not empty.
#[verifier::external_body]
fn random_axis() -> (r: usize)
    ensures
        r < 3,
{
    rand::thread_rng().gen_range(0..3usize)
}

/// A node of the tree: a surface with its cached box, or a box over two
/// subtrees given by their places in the arena.
#[derive(Clone, Copy, Debug)]
pub enum Node {
    Leaf { bbox: AABB, item: usize },
    Inner { bbox: AABB, left: usize, right: usize },
}

impl Node {
    pub open spec fn bbox_spec(self) -> AABB {
        match self {
            Node::Leaf { bbox, .. } => bbox,
            Node::Inner { bbox, .. } => bbox,
        }
    }

    pub fn bbox(&self) -> (r: AABB)
        ensures
            r == self.bbox_spec(),
    {
        match self {
            Node::Leaf { bbox, .. } => *bbox,
            Node::Inner { bbox, .. } => *bbox,
        }
    }
}

/// The surfaces under node `i`, left to right.
pub open spec fn leaves_at(nodes: Seq<Node>, i: int) -> Seq<usize>
    decreases i,
{
    if 0 <= i < nodes.len() {
        match nodes[i] {
            Node::Leaf { item, .. } => seq![item],
            Node::Inner { left, right, .. } => if left < i && right < i {
                leaves_at(nodes, left as int) + leaves_at(nodes, right as int)
            } else {
                Seq::empty()
            },
        }
    } else {
        Seq::empty()
    }
}

/// Node `i` is well formed: a leaf names a surface and caches its box; an
/// inner node's children come before it and its box is the union of theirs.
pub open spec fn node_wf(nodes: Seq<Node>, i: int, boxes: Seq<AABB>) -> bool {
    match nodes[i] {
        Node::Leaf { bbox, item } => item < boxes.len() && bbox == boxes[item as int],
        Node::Inner { bbox, left, right } => {
            &&& left < i
            &&& right < i
            &&& bbox == nodes[left as int].bbox_spec().union_spec(nodes[right as int].bbox_spec())
        },
    }
}

pub open spec fn nodes_wf(nodes: Seq<Node>, boxes: Seq<AABB>) -> bool {
    forall|i: int| 0 <= i < nodes.len() ==> #[trigger] node_wf(nodes, i, boxes)
}

/// An inner node splits its surfaces at the middle: its left subtree holds
/// half of them, rounded down.
pub open spec fn split_at_middle(nodes: Seq<Node>, i: int) -> bool {
    match nodes[i] {
        Node::Inner { left, .. } => leaves_at(nodes, left as int).len() == leaves_at(nodes, i).len()
            / 2,
        Node::Leaf { .. } => true,
    }
}

/// `b` begins with all of `a`.
pub open spec fn extends(b: Seq<Node>, a: Seq<Node>) -> bool {
    a.len() <= b.len() && forall|j: int| 0 <= j < a.len() ==> #[trigger] b[j] == a[j]
}

/// Adding nodes after a node does not change what lies under it.
proof fn lemma_leaves_extend(a: Seq<Node>, b: Seq<Node>, i: int)
    requires
        extends(b, a),
        0 <= i < a.len(),
    ensures
        leaves_at(b, i) == leaves_at(a, i),
    decreases i,
{
    assert(b[i] == a[i]);
    match a[i] {
        Node::Leaf { .. } => {},
        Node::Inner { left, right, .. } => {
            if left < i && right < i {
                lemma_leaves_extend(a, b, left as int);
                lemma_leaves_extend(a, b, right as int);
            }
        },
    }
}

/// Adding well-formed nodes after well-formed nodes keeps all of them so.
proof fn lemma_wf_extend(a: Seq<Node>, b: Seq<Node>, boxes: Seq<AABB>)
    requires
        extends(b, a),
        nodes_wf(a, boxes),
        forall|i: int| a.len() <= i < b.len() ==> #[trigger] node_wf(b, i, boxes),
    ensures
        nodes_wf(b, boxes),
{
    assert forall|i: int| 0 <= i < b.len() implies #[trigger] node_wf(b, i, boxes) by {
        if i < a.len() {
            assert(node_wf(a, i, boxes));
            assert(b[i] == a[i]);
            if let Node::Inner { left, right, .. } = a[i] {
                assert(b[left as int] == a[left as int]);
                assert(b[right as int] == a[right as int]);
            }
        }
    }
}

/// Adding nodes after a node does not change how it splits its surfaces.
proof fn lemma_split_extend(a: Seq<Node>, b: Seq<Node>, boxes: Seq<AABB>, j: int)
    requires
        extends(b, a),
        nodes_wf(a, boxes),
        0 <= j < a.len(),
        split_at_middle(a, j),
    ensures
        split_at_middle(b, j),
{
    assert(b[j] == a[j]);
    assert(node_wf(a, j, boxes));
    lemma_leaves_extend(a, b, j);
    if let Node::Inner { left, .. } = a[j] {
        lemma_leaves_extend(a, b, left as int);
    }
}

/// Every node's box contains the box of each surface under it.
pub proof fn lemma_node_box_contains(nodes: Seq<Node>, boxes: Seq<AABB>, i: int, k: int)
    requires
        nodes_wf(nodes, boxes),
        0 <= i < nodes.len(),
        0 <= k < leaves_at(nodes, i).len(),
    ensures
        leaves_at(nodes, i)[k] < boxes.len(),
        nodes[i].bbox_spec().contains(boxes[leaves_at(nodes, i)[k] as int]),
    decreases i,
{
    assert(node_wf(nodes, i, boxes));
    match nodes[i] {
        Node::Leaf { bbox, item } => {
            assert(leaves_at(nodes, i)[k] == item);
            assert forall|a: int| 0 <= a < 3 implies bbox.min.at(a) <= #[trigger] bbox.min.at(a)
                && bbox.max.at(a) <= bbox.max.at(a) by {}
        },
        Node::Inner { left, right, .. } => {
            let ll = leaves_at(nodes, left as int);
            let rl = leaves_at(nodes, right as int);
            let lb = nodes[left as int].bbox_spec();
            let rb = nodes[right as int].bbox_spec();
            lemma_union_contains(lb, rb);
            if k < ll.len() {
                assert(leaves_at(nodes, i)[k] == ll[k]);
                lemma_node_box_contains(nodes, boxes, left as int, k);
                lemma_contains_trans(nodes[i].bbox_spec(), lb, boxes[ll[k] as int]);
            } else {
                assert(leaves_at(nodes, i)[k] == rl[k - ll.len()]);
                lemma_node_box_contains(nodes, boxes, right as int, k - ll.len());
                lemma_contains_trans(nodes[i].bbox_spec(), rb, boxes[rl[k - ll.len()] as int]);
            }
        },
    }
}

/// The box test never misses a box that holds a surface the ray hits.
pub open spec fn conservative<B: Fn(AABB) -> bool, L: Fn(usize) -> Option<u64>>(
    boxes: Seq<AABB>,
    box_hit: B,
    surface_hit: L,
) -> bool {
    forall|b: AABB, k: usize, t: u64, r: bool|
        k < boxes.len() && b.contains(boxes[k as int]) && #[trigger] call_ensures(
            surface_hit,
            (k,),
            Some(t),
        ) && #[trigger] call_ensures(box_hit, (b,), r) ==> r
}

/// The key by which surfaces are ordered on an axis: the low corner of the box.
pub open spec fn axis_key(boxes: Seq<AABB>, item: usize, axis: usize) -> u64 {
    boxes[item as int].min.at(axis as int)
}

/// Orders the surfaces `items` by the low corner of their boxes on `axis`
/// (an insertion sort; equal keys keep their order).
fn sort_by_axis(items: Vec<usize>, boxes: &Vec<AABB>, axis: usize) -> (r: Vec<usize>)
    requires
        axis < 3,
        forall|k: int| 0 <= k < items@.len() ==> #[trigger] items@[k] < boxes@.len(),
    ensures
        r@.to_multiset() == items@.to_multiset(),
        r@.len() == items@.len(),
        forall|k: int| 0 <= k < r@.len() ==> #[trigger] r@[k] < boxes@.len(),
        forall|i: int, j: int|
            0 <= i < j < r@.len() ==> axis_key(boxes@, r@[i], axis) <= axis_key(
                boxes@,
                r@[j],
                axis,
            ),
{
    let mut out: Vec<usize> = Vec::new();
    let mut i: usize = 0;
    while i < items.len()
        invariant
            i <= items@.len(),
            axis < 3,
            forall|k: int| 0 <= k < items@.len() ==> #[trigger] items@[k] < boxes@.len(),
            out@.to_multiset() == items@.subrange(0, i as int).to_multiset(),
            out@.len() == i,
            forall|k: int| 0 <= k < out@.len() ==> #[trigger] out@[k] < boxes@.len(),
            forall|a: int, b: int|
                0 <= a < b < out@.len() ==> axis_key(boxes@, out@[a], axis) <= axis_key(
                    boxes@,
                    out@[b],
                    axis,
                ),
        decreases items@.len() - i,
    {
        let x = items[i];
        let kx = boxes[x].min.axis(axis);
        let mut j: usize = 0;
        while j < out.len() && boxes[out[j]].min.axis(axis) <= kx
            invariant
                j <= out@.len(),
                axis < 3,
                x < boxes@.len(),
                kx == axis_key(boxes@, x, axis),
                forall|k: int| 0 <= k < out@.len() ==> #[trigger] out@[k] < boxes@.len(),
                forall|k: int| 0 <= k < j ==> axis_key(boxes@, #[trigger] out@[k], axis) <= kx,
            decreases out@.len() - j,
        {
            j += 1;
        }
        let ghost before = out@;
        out.insert(j, x);
        proof {
            assert(items@.subrange(0, i + 1) =~= items@.subrange(0, i as int).push(x));
            assert forall|a: int, b: int|
                0 <= a < b < out@.len() implies axis_key(boxes@, out@[a], axis) <= axis_key(
                boxes@,
                out@[b],
                axis,
            ) by {
                if j < before.len() {
                    assert(kx < axis_key(boxes@, before[j as int], axis));
                }
                if a < j && b == j {
                    assert(axis_key(boxes@, before[a], axis) <= kx);
                } else if a == j && b > j {
                    assert(kx < axis_key(boxes@, before[j as int], axis));
                    if b - 1 > j {
                        assert(axis_key(boxes@, before[j as int], axis) <= axis_key(
                            boxes@,
                            before[b - 1],
                            axis,
                        ));
                    }
                }
            }
            assert forall|k: int| 0 <= k < out@.len() implies #[trigger] out@[k] < boxes@.len() by {
                if k < j {
                    assert(out@[k] == before[k]);
                } else if k > j {
                    assert(out@[k] == before[k - 1]);
                }
            }
        }
        i += 1;
    }
    assert(items@.subrange(0, items@.len() as int) =~= items@);
    out
}

/// A hierarchy over the surfaces `0..boxes.len()`, each with its box.
pub struct BvhNode {
    boxes: Vec<AABB>,
    nodes: Vec<Node>,
    root: usize,
}

impl BvhNode {
    /// The boxes of the surfaces, by index.
    pub closed spec fn boxes_spec(&self) -> Seq<AABB> {
        self.boxes@
    }

    /// The arena of nodes.
    pub closed spec fn nodes_spec(&self) -> Seq<Node> {
        self.nodes@
    }

    /// Where the root stands in the arena.
    pub closed spec fn root_spec(&self) -> int {
        self.root as int
    }

    pub open spec fn wf(&self) -> bool {
        &&& 0 <= self.root_spec() < self.nodes_spec().len()
        &&& nodes_wf(self.nodes_spec(), self.boxes_spec())
    }

    /// The surfaces under the root, left to right.
    pub open spec fn leaves(&self) -> Seq<usize> {
        leaves_at(self.nodes_spec(), self.root_spec())
    }

    /// The box of the root.
    pub open spec fn bbox_spec(&self) -> AABB {
        self.nodes_spec()[self.root_spec()].bbox_spec()
    }

    /// Builds the hierarchy over the surfaces whose boxes are `boxes`: each
    /// level sorts its surfaces on an axis drawn at random and splits them at
    /// the middle; one surface makes a leaf, two make a node over two leaves.
    pub fn build(boxes: Vec<AABB>) -> (r: BvhNode)
        requires
            boxes@.len() > 0,
        ensures
            r.wf(),
            r.boxes_spec() == boxes@,
            r.leaves().to_multiset() == all_items(boxes@.len()).to_multiset(),
            forall|j: int|
                0 <= j < r.nodes_spec().len() ==> #[trigger] split_at_middle(r.nodes_spec(), j),
    {
        let mut items: Vec<usize> = Vec::new();
        let mut i: usize = 0;
        while i < boxes.len()
            invariant
                i <= boxes@.len(),
                items@ == all_items(i as nat),
            decreases boxes@.len() - i,
        {
            items.push(i);
            assert(items@ =~= all_items((i + 1) as nat));
            i += 1;
        }
        let mut nodes: Vec<Node> = Vec::new();
        let root = build_rec(&mut nodes, &boxes, items);
        BvhNode { boxes, nodes, root }
    }

    /// The box of the whole tree.
    pub fn bounding_box(&self) -> (r: AABB)
        requires
            self.wf(),
        ensures
            r == self.bbox_spec(),
    {
        self.nodes[self.root].bbox()
    }

    /// The nearest hit among the surfaces of the tree. A node whose box the
    /// ray misses is passed over; otherwise both its children are searched
    /// over the same window and the nearer hit is kept.
    pub fn hit<B: Fn(AABB) -> bool, L: Fn(usize) -> Option<u64>>(
        &self,
        box_hit: &B,
        surface_hit: &L,
    ) -> (r: Option<Hit>)
        requires
            self.wf(),
            forall|b: AABB| call_requires(*box_hit, (b,)),
            forall|k: usize| k < self.boxes_spec().len() ==> call_requires(*surface_hit, (k,)),
            deterministic(*surface_hit),
            conservative(self.boxes_spec(), *box_hit, *surface_hit),
        ensures
            is_nearest(r, self.leaves(), *surface_hit),
    {
        self.hit_node(self.root, box_hit, surface_hit)
    }

    fn hit_node<B: Fn(AABB) -> bool, L: Fn(usize) -> Option<u64>>(
        &self,
        i: usize,
        box_hit: &B,
        surface_hit: &L,
    ) -> (r: Option<Hit>)
        requires
            self.wf(),
            i < self.nodes@.len(),
            forall|b: AABB| call_requires(*box_hit, (b,)),
            forall|k: usize| k < self.boxes@.len() ==> call_requires(*surface_hit, (k,)),
            deterministic(*surface_hit),
            conservative(self.boxes@, *box_hit, *surface_hit),
        ensures
            is_nearest(r, leaves_at(self.nodes@, i as int), *surface_hit),
        decreases i,
    {
        let ghost under = leaves_at(self.nodes@, i as int);
        let node = self.nodes[i];
        let bbox = node.bbox();
        if !box_hit(bbox) {
            proof {
                assert forall|k: int, v: Option<u64>|
                    0 <= k < under.len() && #[trigger] call_ensures(
                        *surface_hit,
                        (under[k],),
                        v,
                    ) implies v is None by {
                    lemma_node_box_contains(self.nodes@, self.boxes@, i as int, k);
                    if let Some(t) = v {
                        assert(call_ensures(*surface_hit, (under[k],), Some(t)));
                    }
                }
            }
            return None;
        }
        assert(node_wf(self.nodes@, i as int, self.boxes@));
        match node {
            Node::Leaf { item, .. } => {
                let v = surface_hit(item);
                let r = match v {
                    Some(t) => Some(Hit { t, item }),
                    None => None,
                };
                proof {
                    assert(under =~= seq![item]);
                    assert(under[0] == item);
                    if r is Some {
                        assert(under.contains(item));
                    }
                }
                r
            },
            Node::Inner { left, right, .. } => {
                let a = self.hit_node(left, box_hit, surface_hit);
                let b = self.hit_node(right, box_hit, surface_hit);
                let r = nearer(a, b);
                proof {
                    lemma_nearer_concat(
                        r,
                        a,
                        b,
                        leaves_at(self.nodes@, left as int),
                        leaves_at(self.nodes@, right as int),
                        *surface_hit,
                    );
                }
                r
            },
        }
    }
}

/// Builds the subtree over `items` after the nodes already in `nodes`, and
/// returns where its root stands.
fn build_rec(nodes: &mut Vec<Node>, boxes: &Vec<AABB>, items: Vec<usize>) -> (root: usize)
    requires
        items@.len() > 0,
        forall|k: int| 0 <= k < items@.len() ==> #[trigger] items@[k] < boxes@.len(),
        nodes_wf(old(nodes)@, boxes@),
    ensures
        extends(final(nodes)@, old(nodes)@),
        nodes_wf(final(nodes)@, boxes@),
        root < final(nodes)@.len(),
        leaves_at(final(nodes)@, root as int).to_multiset() == items@.to_multiset(),
        forall|j: int|
            old(nodes)@.len() <= j < final(nodes)@.len() ==> #[trigger] split_at_middle(
                final(nodes)@,
                j,
            ),
    decreases items@.len(),
{
    let ghost start = nodes@;
    let axis = random_axis();
    let mut sorted = sort_by_axis(items, boxes, axis);
    let n = sorted.len();
    if n == 1 {
        let item = sorted[0];
        nodes.push(Node::Leaf { bbox: boxes[item], item });
        let root = nodes.len() - 1;
        proof {
            lemma_wf_extend(start, nodes@, boxes@);
            assert(sorted@ =~= seq![item]);
            assert(leaves_at(nodes@, root as int) =~= seq![item]);
        }
        root
    } else if n == 2 {
        let a = sorted[0];
        let b = sorted[1];
        nodes.push(Node::Leaf { bbox: boxes[a], item: a });
        let la = nodes.len() - 1;
        nodes.push(Node::Leaf { bbox: boxes[b], item: b });
        let lb = nodes.len() - 1;
        let bbox = boxes[a].union(&boxes[b]);
        nodes.push(Node::Inner { bbox, left: la, right: lb });
        let root = nodes.len() - 1;
        proof {
            lemma_wf_extend(start, nodes@, boxes@);
            assert(sorted@ =~= seq![a] + seq![b]);
            assert(leaves_at(nodes@, la as int) =~= seq![a]);
            assert(leaves_at(nodes@, lb as int) =~= seq![b]);
            assert(leaves_at(nodes@, root as int) =~= sorted@);
            assert(split_at_middle(nodes@, root as int));
        }
        root
    } else {
        let ghost whole = sorted@;
        let right_items = sorted.split_off(n / 2);
        let ghost left_seq = sorted@;
        let ghost right_seq = right_items@;
        let l = build_rec(nodes, boxes, sorted);
        let ghost mid = nodes@;
        let r = build_rec(nodes, boxes, right_items);
        let ghost after = nodes@;
        proof {
            lemma_leaves_extend(mid, nodes@, l as int);
        }
        let bbox = nodes[l].bbox().union(&nodes[r].bbox());
        let ghost before_push = nodes@;
        nodes.push(Node::Inner { bbox, left: l, right: r });
        let root = nodes.len() - 1;
        proof {
            lemma_wf_extend(before_push, nodes@, boxes@);
            lemma_leaves_extend(before_push, nodes@, l as int);
            lemma_leaves_extend(before_push, nodes@, r as int);
            vstd::seq_lib::lemma_multiset_commutative(left_seq, right_seq);
            vstd::seq_lib::lemma_multiset_commutative(
                leaves_at(nodes@, l as int),
                leaves_at(nodes@, r as int),
            );
            assert(whole =~= left_seq + right_seq);
            assert(leaves_at(nodes@, root as int) == leaves_at(nodes@, l as int) + leaves_at(
                nodes@,
                r as int,
            ));
            vstd::seq_lib::to_multiset_len(left_seq);
            vstd::seq_lib::to_multiset_len(leaves_at(nodes@, l as int));
            vstd::seq_lib::to_multiset_len(whole);
            vstd::seq_lib::to_multiset_len(leaves_at(nodes@, root as int));
            assert(split_at_middle(nodes@, root as int));
            assert forall|j: int| start.len() <= j < nodes@.len() implies #[trigger] split_at_middle(
                nodes@,
                j,
            ) by {
                if j < mid.len() {
                    lemma_split_extend(mid, nodes@, boxes@, j);
                } else if j < after.len() {
                    lemma_split_extend(after, nodes@, boxes@, j);
                }
            }
        }
        root
    }
}

/// The hierarchy finds a hit exactly when a scan of all its surfaces does,
/// and at the same ray parameter.
pub proof fn lemma_hierarchy_matches_scan<L: Fn(usize) -> Option<u64>>(
    tree: BvhNode,
    surface_hit: L,
    from_tree: Option<Hit>,
    from_scan: Option<Hit>,
)
    requires
        tree.leaves().to_multiset() == all_items(tree.boxes_spec().len()).to_multiset(),
        is_nearest(from_tree, tree.leaves(), surface_hit),
        is_nearest(from_scan, all_items(tree.boxes_spec().len()), surface_hit),
    ensures
        from_tree is Some <==> from_scan is Some,
        from_tree matches Some(h) ==> from_scan->Some_0.t == h.t,
{
    let xs = tree.leaves();
    let ys = all_items(tree.boxes_spec().len());
    if let Some(h) = from_tree {
        assert(xs.to_multiset().count(h.item) > 0);
        assert(ys.contains(h.item));
        let k = choose|k: int| 0 <= k < ys.len() && ys[k] == h.item;
        assert(call_ensures(surface_hit, (ys[k],), Some(h.t)));
        if let Some(g) = from_scan {
            assert(ys.to_multiset().count(g.item) > 0);
            assert(xs.contains(g.item));
            let j = choose|j: int| 0 <= j < xs.len() && xs[j] == g.item;
            assert(call_ensures(surface_hit, (xs[j],), Some(g.t)));
        }
    }
    if let Some(g) = from_scan {
        assert(ys.to_multiset().count(g.item) > 0);
        assert(xs.contains(g.item));
        let j = choose|j: int| 0 <= j < xs.len() && xs[j] == g.item;
        assert(call_ensures(surface_hit, (xs[j],), Some(g.t)));
    }
}

} // verus!
