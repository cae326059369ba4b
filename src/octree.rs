use vstd::prelude::*;

use crate::aabb::{is_pow2, lemma_octant_inside, lemma_octant_nests, lemma_pow2_above, lemma_unit_index_unique, max3, pow2_above, IAabb};
use crate::vec3::IVec3;
use crate::voxel::{Voxel, VoxelGenerator};

verus! {

/// A node of the octree arena. Slot `i` covers octant `i` of the node's box:
/// a branch slot holds the index of a child node (never 0, the root), a leaf
/// slot holds the voxel of one unit cell.
#[derive(Clone, Copy, Debug)]
pub enum Node {
    Branch([Option<usize>; 8]),
    Leaf([Option<Voxel>; 8]),
}

/// Child index in slot `i` of `n`, if `n` is a branch.
pub open spec fn child_slot(n: Node, i: int) -> Option<usize> {
    match n {
        Node::Branch(c) => c@[i],
        Node::Leaf(_) => None,
    }
}

/// Every slot of `n` is vacant.
pub open spec fn is_empty_node(n: Node) -> bool {
    match n {
        Node::Branch(c) => forall|i: int| 0 <= i < 8 ==> (#[trigger] c@[i]) is None,
        Node::Leaf(v) => forall|i: int| 0 <= i < 8 ==> (#[trigger] v@[i]) is None,
    }
}

/// What a descent for `p` finds from node `n`, whose box is `boxes[n]`.
pub open spec fn get_in(nodes: Seq<Node>, boxes: Seq<IAabb>, n: int, p: IVec3) -> Option<Voxel>
    decreases nodes.len() - n,
{
    if 0 <= n < nodes.len() && n < boxes.len() {
        match boxes[n].index_of_spec(p) {
            None => None,
            Some(i) => match nodes[n] {
                Node::Branch(c) => match c@[i as int] {
                    Some(k) => if n < k < nodes.len() {
                        get_in(nodes, boxes, k as int, p)
                    } else {
                        None
                    },
                    None => None,
                },
                Node::Leaf(v) => v@[i as int],
            },
        }
    } else {
        None
    }
}

/// The descent for `p` from node `n` passes through node `t`.
pub open spec fn on_path(nodes: Seq<Node>, boxes: Seq<IAabb>, n: int, t: int, p: IVec3) -> bool
    decreases t - n,
{
    if n == t {
        true
    } else if 0 <= n < t && t < nodes.len() && n < boxes.len() {
        match boxes[n].index_of_spec(p) {
            Some(i) => match child_slot(nodes[n], i as int) {
                Some(c) => n < c <= t && on_path(nodes, boxes, c as int, t, p),
                None => false,
            },
            None => false,
        }
    } else {
        false
    }
}

/// Cell of slot `i` in a unit leaf whose box has origin `o`: `o` plus the
/// slot's bit on each axis.
pub open spec fn leaf_cell(o: IVec3, i: int) -> IVec3 {
    IVec3 { x: (o.x + i % 2) as i32, y: (o.y + (i / 2) % 2) as i32, z: (o.z + (i / 4) % 2) as i32 }
}

/// Voxels under node `n`.
pub open spec fn count_in(nodes: Seq<Node>, n: int) -> nat
    decreases nodes.len() - n, 9int,
{
    count_prefix(nodes, n, 8)
}

/// Voxels under the first `m` slots of node `n`.
pub open spec fn count_prefix(nodes: Seq<Node>, n: int, m: int) -> nat
    decreases nodes.len() - n, m,
{
    if m <= 0 {
        0
    } else {
        count_prefix(nodes, n, m - 1) + slot_count(nodes, n, m - 1)
    }
}

/// Voxels under slot `i` of node `n`.
pub open spec fn slot_count(nodes: Seq<Node>, n: int, i: int) -> nat
    decreases nodes.len() - n, 0int,
{
    if 0 <= n < nodes.len() {
        match nodes[n] {
            Node::Branch(c) => match c@[i] {
                Some(k) => if n < k < nodes.len() {
                    count_in(nodes, k as int)
                } else {
                    0
                },
                None => 0,
            },
            Node::Leaf(v) => if v@[i] is Some {
                1
            } else {
                0
            },
        }
    } else {
        0
    }
}

/// Lattice cells of a cube of half extent `e`.
pub open spec fn cube_cells(e: int) -> int {
    (2 * e) * (2 * e) * (2 * e)
}

/// Node `n` has a power-of-two cube as box, is a leaf exactly when that cube is
/// the unit one, and links only to later nodes whose boxes are its octants.
pub open spec fn node_ok(nodes: Seq<Node>, boxes: Seq<IAabb>, n: int) -> bool {
    &&& boxes[n].wf()
    &&& boxes[n].is_cube_pow2()
    &&& (nodes[n] is Leaf) == (boxes[n].extents.x == 1)
    &&& forall|i: int|
        0 <= i < 8 ==> match #[trigger] child_slot(nodes[n], i) {
            Some(c) => n < c < nodes.len() && boxes[c as int] == boxes[n].octant_spec(i),
            None => true,
        }
}

pub open spec fn tree_ok(nodes: Seq<Node>, boxes: Seq<IAabb>) -> bool {
    &&& nodes.len() == boxes.len()
    &&& forall|n: int| 0 <= n < nodes.len() ==> #[trigger] node_ok(nodes, boxes, n)
}

/// Appending a node that nothing links to leaves every earlier descent alone.
proof fn lemma_push_frame(nodes: Seq<Node>, boxes: Seq<IAabb>, x: Node, b: IAabb, n: int, p: IVec3)
    requires
        tree_ok(nodes, boxes),
        0 <= n < nodes.len(),
    ensures
        get_in(nodes.push(x), boxes.push(b), n, p) == get_in(nodes, boxes, n, p),
    decreases nodes.len() - n,
{
    assert(node_ok(nodes, boxes, n));
    if let Some(i) = boxes[n].index_of_spec(p) {
        assert(nodes.push(x)[n] == nodes[n]);
        assert(boxes.push(b)[n] == boxes[n]);
        if let Node::Branch(c) = nodes[n] {
            assert(child_slot(nodes[n], i as int) == c@[i as int]);
            if let Some(k) = c@[i as int] {
                lemma_push_frame(nodes, boxes, x, b, k as int, p);
            }
        }
    }
}

/// Linking an empty node into a vacant branch slot leaves every descent alone.
proof fn lemma_link_frame(
    nodes: Seq<Node>,
    boxes: Seq<IAabb>,
    m: int,
    s: int,
    c: usize,
    x: Node,
    n: int,
    p: IVec3,
)
    requires
        x is Branch,
        x->Branch_0@ == nodes[m]->Branch_0@.update(s, Some(c)),
        0 <= m < c < nodes.len(),
        0 <= s < 8,
        nodes[m] is Branch,
        child_slot(nodes[m], s) is None,
        is_empty_node(nodes[c as int]),
        0 <= n,
    ensures
        get_in(nodes.update(m, x), boxes, n, p) == get_in(nodes, boxes, n, p),
    decreases nodes.len() - n,
{
    let ch = nodes[m]->Branch_0;
    let nodes2 = nodes.update(m, x);
    if 0 <= n < nodes.len() && n < boxes.len() {
        if let Some(i) = boxes[n].index_of_spec(p) {
            if n == m {
                if i as int == s {
                    assert(nodes2[c as int] == nodes[c as int]);
                    if c < boxes.len() {
                        if let Some(j) = boxes[c as int].index_of_spec(p) {
                            match nodes[c as int] {
                                Node::Branch(cc) => assert(cc@[j as int] is None),
                                Node::Leaf(vv) => assert(vv@[j as int] is None),
                            }
                        }
                    }
                    assert(get_in(nodes2, boxes, c as int, p) is None);
                    assert(nodes2[m] == x);
                    assert(x->Branch_0@[s] == Some(c));
                    assert(get_in(nodes2, boxes, n, p) is None);
                    assert(ch@[s] is None);
                    assert(get_in(nodes, boxes, n, p) is None);
                } else {
                    assert(nodes2[m] == x);
                    assert(x->Branch_0@[i as int] == ch@[i as int]);
                    if let Some(k) = ch@[i as int] {
                        if n < k < nodes.len() {
                            lemma_link_frame(nodes, boxes, m, s, c, x, k as int, p);
                        }
                    }
                }
            } else {
                if let Node::Branch(cc) = nodes[n] {
                    if let Some(k) = cc@[i as int] {
                        if n < k < nodes.len() {
                            lemma_link_frame(nodes, boxes, m, s, c, x, k as int, p);
                        }
                    }
                }
            }
        }
    }
}

/// Writing a voxel into a slot of a unit leaf changes no descent for another
/// position.
proof fn lemma_write_frame(
    nodes: Seq<Node>,
    boxes: Seq<IAabb>,
    m: int,
    s: int,
    v: Voxel,
    x: Node,
    pos: IVec3,
    n: int,
    p: IVec3,
)
    requires
        x is Leaf,
        x->Leaf_0@ == nodes[m]->Leaf_0@.update(s, Some(v)),
        0 <= m < nodes.len(),
        m < boxes.len(),
        nodes[m] is Leaf,
        boxes[m].extents == IVec3::splat_spec(1),
        0 <= s < 8,
        boxes[m].index_of_spec(pos) == Some(s as usize),
        p != pos,
        0 <= n,
    ensures
        get_in(nodes.update(m, x), boxes, n, p) == get_in(nodes, boxes, n, p),
    decreases nodes.len() - n,
{
    let vs = nodes[m]->Leaf_0;
    let nodes2 = nodes.update(m, x);
    if 0 <= n < nodes.len() && n < boxes.len() {
        if let Some(i) = boxes[n].index_of_spec(p) {
            if n == m {
                if i as int == s {
                    lemma_unit_index_unique(boxes[m], p, pos);
                }
            } else {
                if let Node::Branch(cc) = nodes[n] {
                    if let Some(k) = cc@[i as int] {
                        if n < k < nodes.len() {
                            lemma_write_frame(nodes, boxes, m, s, v, x, pos, k as int, p);
                        }
                    }
                }
            }
        }
    }
}

/// A path to `t` survives any change at or after `t`, and the descent from
/// its start reaches whatever `t` then finds.
proof fn lemma_path_agree(
    nodes: Seq<Node>,
    boxes: Seq<IAabb>,
    nodes2: Seq<Node>,
    boxes2: Seq<IAabb>,
    n: int,
    t: int,
    p: IVec3,
)
    requires
        on_path(nodes, boxes, n, t, p),
        0 <= n,
        t < nodes2.len(),
        t < boxes2.len(),
        forall|k: int| 0 <= k < t ==> nodes2[k] == nodes[k],
        forall|k: int| 0 <= k < t ==> boxes2[k] == boxes[k],
    ensures
        on_path(nodes2, boxes2, n, t, p),
        get_in(nodes2, boxes2, n, p) == get_in(nodes2, boxes2, t, p),
    decreases t - n,
{
    if n != t {
        let i = boxes[n].index_of_spec(p)->0;
        let c = child_slot(nodes[n], i as int)->0;
        assert(nodes2[n] == nodes[n]);
        assert(boxes2[n] == boxes[n]);
        lemma_path_agree(nodes, boxes, nodes2, boxes2, c as int, t, p);
    }
}

/// A path to `t` extends to the child that the descent takes from `t`.
proof fn lemma_path_extend(nodes: Seq<Node>, boxes: Seq<IAabb>, n: int, t: int, c: usize, p: IVec3)
    requires
        on_path(nodes, boxes, n, t, p),
        0 <= n <= t,
        t < c < nodes.len(),
        t < boxes.len(),
        boxes[t].index_of_spec(p) is Some,
        child_slot(nodes[t], boxes[t].index_of_spec(p)->0 as int) == Some(c),
    ensures
        on_path(nodes, boxes, n, c as int, p),
    decreases t - n,
{
    if n == t {
        assert(on_path(nodes, boxes, c as int, c as int, p));
    } else {
        let i = boxes[n].index_of_spec(p)->0;
        let k = child_slot(nodes[n], i as int)->0;
        lemma_path_extend(nodes, boxes, k as int, t, c, p);
    }
}

/// What one slot of a node holds.
#[derive(Clone, Copy, Debug, PartialEq, Eq, Structural)]
pub enum Slot {
    Empty,
    Child(usize),
    Voxel(Voxel),
}

/// A sparse voxel store: a power-of-two cube split into octants down to unit
/// leaves, kept as an arena of nodes with the root at index 0.
pub struct Octree {
    bb: IAabb,
    nodes: Vec<Node>,
    boxes: Ghost<Seq<IAabb>>,
}

impl Octree {
    pub closed spec fn wf(&self) -> bool {
        &&& tree_ok(self.nodes@, self.boxes@)
        &&& self.nodes@.len() >= 1
        &&& self.boxes@[0] == self.bb
        &&& self.nodes@[0] is Branch
    }

    /// `after` is this tree once `insert(pos, voxel)` has returned `r`: `r`
    /// tells whether `pos` lies in the cube, and only `pos` changed, to
    /// `voxel`, when it does.
    pub open spec fn inserted(self, after: Octree, pos: IVec3, voxel: Voxel, r: bool) -> bool {
        &&& after.wf()
        &&& after.aabb_spec() == self.aabb_spec()
        &&& r == self.aabb_spec().addressable(pos)
        &&& forall|p: IVec3|
            #[trigger] after.spec_get(p) == if r && p == pos {
                Some(voxel)
            } else {
                self.spec_get(p)
            }
    }

    /// Number of nodes in the arena.
    pub closed spec fn node_count_spec(&self) -> nat {
        self.nodes@.len()
    }

    /// Slot `idx` of node `n`.
    pub closed spec fn slot_spec(&self, n: int, idx: int) -> Slot {
        match self.nodes@[n] {
            Node::Branch(c) => match c@[idx] {
                Some(k) => Slot::Child(k),
                None => Slot::Empty,
            },
            Node::Leaf(v) => match v@[idx] {
                Some(x) => Slot::Voxel(x),
                None => Slot::Empty,
            },
        }
    }

    /// The cube the tree covers.
    pub closed spec fn aabb_spec(&self) -> IAabb {
        self.bb
    }

    /// The voxel stored at `p`, if any.
    pub closed spec fn spec_get(&self, p: IVec3) -> Option<Voxel> {
        get_in(self.nodes@, self.boxes@, 0, p)
    }

    /// An empty tree over the power-of-two cube around `bb` (see
    /// `IAabb::next_pow2`).
    pub fn new(bb: IAabb) -> (r: Octree)
        requires
            bb.wf(),
            max3(bb.extents.x as int, bb.extents.y as int, bb.extents.z as int) < 0x4000_0000,
            (IAabb {
                origin: bb.origin,
                extents: IVec3::splat_spec(
                    pow2_above(max3(bb.extents.x as int, bb.extents.y as int, bb.extents.z as int)) as i32,
                ),
            }).wf(),
        ensures
            r.wf(),
            r.aabb_spec().origin == bb.origin,
            r.aabb_spec().extents == IVec3::splat_spec(
                pow2_above(max3(bb.extents.x as int, bb.extents.y as int, bb.extents.z as int)) as i32,
            ),
            forall|p: IVec3| r.spec_get(p) is None,
    {
        proof {
            lemma_pow2_above(max3(bb.extents.x as int, bb.extents.y as int, bb.extents.z as int));
        }
        let bb = bb.next_pow2();
        let root = Node::from_aabb(bb);
        let mut nodes: Vec<Node> = Vec::new();
        nodes.push(root);
        let ghost boxes = seq![bb];
        let r = Octree { bb, nodes, boxes: Ghost(boxes) };
        proof {
            assert(node_ok(r.nodes@, r.boxes@, 0));
            assert forall|p: IVec3| r.spec_get(p) is None by {
                if let Some(i) = bb.index_of_spec(p) {
                    if let Node::Branch(c) = root {
                        assert(c@[i as int] is None);
                    }
                }
            }
        }
        r
    }

    /// The cube the tree covers.
    pub fn aabb(&self) -> (r: IAabb)
        ensures
            r == self.aabb_spec(),
    {
        self.bb
    }

    /// Every stored voxel with its position, depth first in slot order: a
    /// pair `(p, v)` is listed iff the tree holds `v` at `p`.
    pub fn entries(&self) -> (r: Vec<(IVec3, Voxel)>)
        requires
            self.wf(),
        ensures
            forall|k: int| 0 <= k < r@.len() ==> self.spec_get(#[trigger] r@[k].0) == Some(r@[k].1),
            forall|p: IVec3| #[trigger] self.spec_get(p) is Some ==> exists|k: int| 0 <= k < r@.len() && r@[k] == (p, self.spec_get(p)->0),
    {
        let mut out: Vec<(IVec3, Voxel)> = Vec::new();
        proof {
            assert forall|p: IVec3| self.boxes@[0].addressable(p) implies get_in(self.nodes@, self.boxes@, 0, p)
                == get_in(self.nodes@, self.boxes@, 0, p) by {}
        }
        self.collect(0, self.bb, &mut out);
        proof {
            assert forall|p: IVec3| #[trigger] self.spec_get(p) is Some implies exists|k: int| 0 <= k < out@.len() && out@[k] == (p, self.spec_get(p)->0) by {
                assert(get_in(self.nodes@, self.boxes@, 0, p) is Some);
            }
        }
        out
    }

    /// Appends the voxels under node `n`, whose box is `bb`.
    fn collect(&self, n: usize, bb: IAabb, out: &mut Vec<(IVec3, Voxel)>)
        requires
            self.wf(),
            n < self.nodes@.len(),
            bb == self.boxes@[n as int],
            forall|p: IVec3| bb.addressable(p) ==> #[trigger] get_in(self.nodes@, self.boxes@, 0, p) == get_in(self.nodes@, self.boxes@, n as int, p),
            forall|k: int| 0 <= k < old(out)@.len() ==> self.spec_get(#[trigger] old(out)@[k].0) == Some(old(out)@[k].1),
        ensures
            final(out)@.len() >= old(out)@.len(),
            forall|k: int| 0 <= k < old(out)@.len() ==> #[trigger] final(out)@[k] == old(out)@[k],
            forall|k: int| 0 <= k < final(out)@.len() ==> self.spec_get(#[trigger] final(out)@[k].0) == Some(final(out)@[k].1),
            forall|p: IVec3|
                #[trigger] get_in(self.nodes@, self.boxes@, n as int, p) is Some ==> exists|k: int|
                    old(out)@.len() <= k < final(out)@.len() && final(out)@[k] == (p, get_in(self.nodes@, self.boxes@, n as int, p)->0),
        decreases self.nodes@.len() - n,
    {
        proof {
            assert(node_ok(self.nodes@, self.boxes@, n as int));
        }
        let ghost nodes = self.nodes@;
        let ghost boxes = self.boxes@;
        let ghost start = out@.len();
        let node = self.nodes[n];
        let mut i: usize = 0;
        while i < 8
            invariant
                self.wf(),
                nodes == self.nodes@,
                boxes == self.boxes@,
                n < nodes.len(),
                node == nodes[n as int],
                node_ok(nodes, boxes, n as int),
                bb == boxes[n as int],
                forall|p: IVec3| bb.addressable(p) ==> #[trigger] get_in(nodes, boxes, 0, p) == get_in(nodes, boxes, n as int, p),
                i <= 8,
                out@.len() >= start,
                forall|k: int| 0 <= k < start ==> #[trigger] out@[k] == old(out)@[k],
                forall|k: int| 0 <= k < out@.len() ==> self.spec_get(#[trigger] out@[k].0) == Some(out@[k].1),
                forall|p: IVec3|
                    #[trigger] get_in(nodes, boxes, n as int, p) is Some && (bb.index_of_spec(p)->0 as int) < i
                        ==> exists|k: int| start <= k < out@.len() && out@[k] == (p, get_in(nodes, boxes, n as int, p)->0),
            decreases 8 - i,
        {
            let ghost before = out@;
            match node {
                Node::Branch(c) => {
                    proof {
                        assert(child_slot(nodes[n as int], i as int) == c@[i as int]);
                    }
                    if let Some(k) = c[i] {
                        proof {
                            assert(boxes[k as int] == bb.octant_spec(i as int));
                            assert(node_ok(nodes, boxes, k as int));
                            assert(bb.extents.x != 1);
                            assert(is_pow2(bb.extents.x as int));
                            assert forall|p: IVec3| boxes[k as int].addressable(p) implies #[trigger] get_in(nodes, boxes, 0, p)
                                == get_in(nodes, boxes, k as int, p) by {
                                lemma_octant_inside(bb, p, i);
                            }
                        }
                        let child_bb = bb.octant(i);
                        self.collect(k, child_bb, out);
                        proof {
                            assert forall|p: IVec3|
                                #[trigger] get_in(nodes, boxes, n as int, p) is Some && (bb.index_of_spec(p)->0 as int) < i + 1
                                    implies exists|m: int| start <= m < out@.len() && out@[m] == (p, get_in(nodes, boxes, n as int, p)->0) by {
                                let j = bb.index_of_spec(p)->0;
                                if (j as int) < i {
                                    let m = choose|m: int| start <= m < before.len() && before[m] == (p, get_in(nodes, boxes, n as int, p)->0);
                                    assert(out@[m] == before[m]);
                                } else {
                                    assert(get_in(nodes, boxes, n as int, p) == get_in(nodes, boxes, k as int, p));
                                }
                            }
                        }
                    } else {
                        proof {
                            assert forall|p: IVec3|
                                #[trigger] get_in(nodes, boxes, n as int, p) is Some && (bb.index_of_spec(p)->0 as int) < i + 1
                                    implies exists|m: int| start <= m < out@.len() && out@[m] == (p, get_in(nodes, boxes, n as int, p)->0) by {
                                let j = bb.index_of_spec(p)->0;
                                assert((j as int) != i);
                            }
                        }
                    }
                },
                Node::Leaf(v) => {
                    if let Some(voxel) = v[i] {
                        let ii = i as i32;
                        let cell = IVec3::new(bb.origin.x + ii % 2, bb.origin.y + (ii / 2) % 2, bb.origin.z + (ii / 4) % 2);
                        proof {
                            assert(bb.extents == IVec3::splat_spec(1));
                            assert(cell == leaf_cell(bb.origin, i as int));
                            assert(bb.addressable(cell));
                            assert(bb.index_of_spec(cell) == Some(i));
                            assert(get_in(nodes, boxes, n as int, cell) == Some(voxel));
                            assert(get_in(nodes, boxes, 0, cell) == Some(voxel));
                        }
                        out.push((cell, voxel));
                        proof {
                            assert forall|p: IVec3|
                                #[trigger] get_in(nodes, boxes, n as int, p) is Some && (bb.index_of_spec(p)->0 as int) < i + 1
                                    implies exists|m: int| start <= m < out@.len() && out@[m] == (p, get_in(nodes, boxes, n as int, p)->0) by {
                                let j = bb.index_of_spec(p)->0;
                                if (j as int) < i {
                                    let m = choose|m: int| start <= m < before.len() && before[m] == (p, get_in(nodes, boxes, n as int, p)->0);
                                    assert(out@[m] == before[m]);
                                } else {
                                    lemma_unit_index_unique(bb, p, cell);
                                    assert(out@[before.len() as int] == (p, voxel));
                                }
                            }
                        }
                    } else {
                        proof {
                            assert forall|p: IVec3|
                                #[trigger] get_in(nodes, boxes, n as int, p) is Some && (bb.index_of_spec(p)->0 as int) < i + 1
                                    implies exists|m: int| start <= m < out@.len() && out@[m] == (p, get_in(nodes, boxes, n as int, p)->0) by {
                                let j = bb.index_of_spec(p)->0;
                                assert((j as int) != i);
                            }
                        }
                    }
                },
            }
            i = i + 1;
        }
        proof {
            assert forall|p: IVec3| #[trigger] get_in(nodes, boxes, n as int, p) is Some implies (bb.index_of_spec(p)->0 as int) < 8 by {}
        }
    }

    /// Number of voxels in the tree.
    pub closed spec fn len_spec(&self) -> nat {
        count_in(self.nodes@, 0)
    }

    /// Number of voxels in the tree; the cube's cell count must fit a `usize`.
    pub fn len(&self) -> (r: usize)
        requires
            self.wf(),
            cube_cells(self.aabb_spec().extents.x as int) <= usize::MAX,
        ensures
            r == self.len_spec(),
    {
        self.count_from(0)
    }

    fn count_from(&self, n: usize) -> (r: usize)
        requires
            self.wf(),
            n < self.nodes@.len(),
            cube_cells(self.boxes@[n as int].extents.x as int) <= usize::MAX,
        ensures
            r == count_in(self.nodes@, n as int),
        decreases self.nodes@.len() - n,
    {
        proof {
            assert(node_ok(self.nodes@, self.boxes@, n as int));
            lemma_count_bound(self.nodes@, self.boxes@, n as int);
        }
        let ghost nodes = self.nodes@;
        let node = self.nodes[n];
        let mut total: usize = 0;
        let mut i: usize = 0;
        while i < 8
            invariant
                self.wf(),
                nodes == self.nodes@,
                n < nodes.len(),
                node == nodes[n as int],
                node_ok(nodes, self.boxes@, n as int),
                cube_cells(self.boxes@[n as int].extents.x as int) <= usize::MAX,
                i <= 8,
                total == count_prefix(nodes, n as int, i as int),
                count_in(nodes, n as int) <= usize::MAX,
            decreases 8 - i,
        {
            proof {
                lemma_prefix_le(nodes, n as int, i as int + 1);
                assert(count_prefix(nodes, n as int, i as int + 1) == count_prefix(nodes, n as int, i as int)
                    + slot_count(nodes, n as int, i as int));
            }
            match node {
                Node::Branch(c) => {
                    proof {
                        assert(child_slot(nodes[n as int], i as int) == c@[i as int]);
                    }
                    if let Some(k) = c[i] {
                        proof {
                            assert(self.boxes@[k as int] == self.boxes@[n as int].octant_spec(i as int));
                            assert(node_ok(nodes, self.boxes@, k as int));
                            let e = self.boxes@[n as int].extents.x as int;
                            assert(cube_cells(e / 2) <= cube_cells(e)) by (nonlinear_arith)
                                requires
                                    e >= 1,
                            ;
                        }
                        let sub = self.count_from(k);
                        total = total + sub;
                    }
                },
                Node::Leaf(v) => {
                    if v[i].is_some() {
                        total = total + 1;
                    }
                },
            }
            i = i + 1;
        }
        total
    }

    /// Number of nodes in the arena; the root is node 0.
    pub fn node_count(&self) -> (r: usize)
        requires
            self.wf(),
        ensures
            r == self.node_count_spec(),
            r >= 1,
    {
        self.nodes.len()
    }

    /// Slot `idx` of node `n`. A child always comes later in the arena than
    /// its parent, and its box is octant `idx` of the parent's.
    pub fn slot(&self, n: usize, idx: usize) -> (r: Slot)
        requires
            self.wf(),
            n < self.node_count_spec(),
            idx < 8,
        ensures
            r == self.slot_spec(n as int, idx as int),
            r matches Slot::Child(c) ==> n < c < self.node_count_spec(),
            n == 0 ==> !(r is Voxel),
    {
        proof {
            assert(node_ok(self.nodes@, self.boxes@, n as int));
        }
        match self.nodes[n] {
            Node::Branch(c) => {
                proof {
                    assert(child_slot(self.nodes@[n as int], idx as int) == c@[idx as int]);
                }
                match c[idx] {
                    Some(k) => Slot::Child(k),
                    None => Slot::Empty,
                }
            },
            Node::Leaf(v) => match v[idx] {
                Some(x) => Slot::Voxel(x),
                None => Slot::Empty,
            },
        }
    }

    /// The voxel at `pos`; `None` outside the cube or where nothing was written.
    pub fn get(&self, pos: IVec3) -> (r: Option<Voxel>)
        requires
            self.wf(),
        ensures
            r == self.spec_get(pos),
    {
        let mut curr: usize = 0;
        let mut bb = self.bb;
        loop
            invariant
                self.wf(),
                curr < self.nodes@.len(),
                bb == self.boxes@[curr as int],
                get_in(self.nodes@, self.boxes@, 0, pos) == get_in(self.nodes@, self.boxes@, curr as int, pos),
            decreases self.nodes@.len() - curr,
        {
            proof {
                assert(node_ok(self.nodes@, self.boxes@, curr as int));
            }
            let idx = match bb.index_of(pos) {
                Some(i) => i,
                None => return None,
            };
            match self.nodes[curr] {
                Node::Branch(branches) => {
                    proof {
                        assert(child_slot(self.nodes@[curr as int], idx as int) == branches@[idx as int]);
                    }
                    match branches[idx] {
                        Some(c) => {
                            bb = bb.octant(idx);
                            curr = c;
                        },
                        None => return None,
                    }
                },
                Node::Leaf(leaves) => {
                    return leaves[idx];
                },
            }
        }
    }

    /// Builds the tree over the power-of-two cube around `bb` holding, at every
    /// lattice point of `bb`, what `generator` holds there.
    pub fn from_voxels(generator: &VoxelGenerator, bb: IAabb) -> (r: Octree)
        requires
            generator.wf(),
            bb.wf(),
            max3(bb.extents.x as int, bb.extents.y as int, bb.extents.z as int) < 0x4000_0000,
            (IAabb {
                origin: bb.origin,
                extents: IVec3::splat_spec(
                    pow2_above(max3(bb.extents.x as int, bb.extents.y as int, bb.extents.z as int)) as i32,
                ),
            }).wf(),
        ensures
            r.wf(),
            r.aabb_spec().origin == bb.origin,
            r.aabb_spec().extents == IVec3::splat_spec(
                pow2_above(max3(bb.extents.x as int, bb.extents.y as int, bb.extents.z as int)) as i32,
            ),
            forall|p: IVec3|
                #[trigger] r.spec_get(p) == if bb.in_lattice(p) {
                    generator.lookup_spec(p)
                } else {
                    None
                },
    {
        let mut octree = Octree::new(bb);
        let ghost cube = octree.aabb_spec();
        proof {
            lemma_pow2_above(max3(bb.extents.x as int, bb.extents.y as int, bb.extents.z as int));
        }
        let lo = bb.min();
        let hi = bb.max();
        let mut x = lo.x;
        while x < hi.x
            invariant
                octree.wf(),
                octree.aabb_spec() == cube,
                generator.wf(),
                bb.wf(),
                cube.origin == bb.origin,
                cube.extents.x > bb.extents.x && cube.extents.y > bb.extents.y && cube.extents.z > bb.extents.z,
                cube.extents.x == cube.extents.y && cube.extents.y == cube.extents.z,
                lo.x == bb.origin.x - bb.extents.x && hi.x == bb.origin.x + bb.extents.x,
                lo.y == bb.origin.y - bb.extents.y && hi.y == bb.origin.y + bb.extents.y,
                lo.z == bb.origin.z - bb.extents.z && hi.z == bb.origin.z + bb.extents.z,
                lo.x <= x <= hi.x,
                forall|p: IVec3|
                    #[trigger] octree.spec_get(p) == if bb.in_lattice(p) && p.x < x {
                        generator.lookup_spec(p)
                    } else {
                        None
                    },
            decreases hi.x - x,
        {
            let mut y = lo.y;
            while y < hi.y
                invariant
                    octree.wf(),
                    octree.aabb_spec() == cube,
                    generator.wf(),
                    bb.wf(),
                    cube.origin == bb.origin,
                    cube.extents.x > bb.extents.x && cube.extents.y > bb.extents.y && cube.extents.z > bb.extents.z,
                    lo.x == bb.origin.x - bb.extents.x && hi.x == bb.origin.x + bb.extents.x,
                    lo.y == bb.origin.y - bb.extents.y && hi.y == bb.origin.y + bb.extents.y,
                    lo.z == bb.origin.z - bb.extents.z && hi.z == bb.origin.z + bb.extents.z,
                    lo.x <= x < hi.x,
                    lo.y <= y <= hi.y,
                    forall|p: IVec3|
                        #[trigger] octree.spec_get(p) == if bb.in_lattice(p) && (p.x < x || (p.x == x && p.y < y)) {
                            generator.lookup_spec(p)
                        } else {
                            None
                        },
                decreases hi.y - y,
            {
                let mut z = lo.z;
                while z < hi.z
                    invariant
                        octree.wf(),
                        octree.aabb_spec() == cube,
                        generator.wf(),
                        bb.wf(),
                        cube.origin == bb.origin,
                        cube.extents.x > bb.extents.x && cube.extents.y > bb.extents.y && cube.extents.z > bb.extents.z,
                        lo.x == bb.origin.x - bb.extents.x && hi.x == bb.origin.x + bb.extents.x,
                        lo.y == bb.origin.y - bb.extents.y && hi.y == bb.origin.y + bb.extents.y,
                        lo.z == bb.origin.z - bb.extents.z && hi.z == bb.origin.z + bb.extents.z,
                        lo.x <= x < hi.x,
                        lo.y <= y < hi.y,
                        lo.z <= z <= hi.z,
                        forall|p: IVec3|
                            #[trigger] octree.spec_get(p) == if bb.in_lattice(p) && (p.x < x || (p.x == x && (p.y < y || (p.y == y && p.z < z)))) {
                                generator.lookup_spec(p)
                            } else {
                                None
                            },
                    decreases hi.z - z,
                {
                    let pos = IVec3::new(x, y, z);
                    let ghost prev = octree;
                    let inserted = octree.set(pos, generator.lookup(pos));
                    proof {
                        assert(cube.addressable(pos));
                        assert(inserted);
                        assert forall|p: IVec3| #[trigger] octree.spec_get(p) == if bb.in_lattice(p) && (p.x < x || (p.x == x && (p.y < y || (p.y == y && p.z < z + 1)))) {
                            generator.lookup_spec(p)
                        } else {
                            None
                        } by {
                            assert(prev.spec_get(p) == octree.spec_get(p) || p == pos);
                        }
                    }
                    z = z + 1;
                }
                y = y + 1;
            }
            x = x + 1;
        }
        octree
    }

    /// Writes `voxel` at `pos` when there is one (see `insert`); with `None`
    /// it changes nothing and reports success.
    pub fn set(&mut self, pos: IVec3, voxel: Option<Voxel>) -> (r: bool)
        requires
            old(self).wf(),
        ensures
            final(self).wf(),
            final(self).aabb_spec() == old(self).aabb_spec(),
            r == (voxel is None || old(self).aabb_spec().addressable(pos)),
            forall|p: IVec3|
                #[trigger] final(self).spec_get(p) == if voxel is Some && r && p == pos {
                    voxel
                } else {
                    old(self).spec_get(p)
                },
    {
        match voxel {
            Some(v) => self.insert(pos, v),
            None => true,
        }
    }

    /// Writes `voxel` at `pos`, creating branches on the way as needed, and
    /// overwriting what was there. Returns false, changing nothing, when `pos`
    /// lies outside the cube.
    pub fn insert(&mut self, pos: IVec3, voxel: Voxel) -> (r: bool)
        requires
            old(self).wf(),
        ensures
            old(self).inserted(*final(self), pos, voxel, r),
    {
        let mut curr: usize = 0;
        let mut bb = self.bb;
        if bb.index_of(pos).is_none() {
            return false;
        }
        let ghost before = *self;
        loop
            invariant
                self.wf(),
                before == *old(self),
                self.bb == before.bb,
                before.wf(),
                before.bb.addressable(pos),
                curr < self.nodes@.len(),
                bb == self.boxes@[curr as int],
                bb.addressable(pos),
                on_path(self.nodes@, self.boxes@, 0, curr as int, pos),
                forall|p: IVec3| #[trigger] self.spec_get(p) == before.spec_get(p),
            decreases bb.extents.x,
        {
            proof {
                assert(node_ok(self.nodes@, self.boxes@, curr as int));
            }
            let ghost at_start = *self;
            let idx = bb.index_of(pos).unwrap();
            let new_idx = self.nodes.len();
            match self.nodes[curr] {
                Node::Branch(branches) => {
                    proof {
                        assert(child_slot(self.nodes@[curr as int], idx as int) == branches@[idx as int]);
                        lemma_octant_nests(bb, pos, idx);
                    }
                    let child_bb = bb.octant(idx);
                    match branches[idx] {
                        Some(c) => {
                            proof {
                                lemma_path_extend(self.nodes@, self.boxes@, 0, curr as int, c, pos);
                            }
                            curr = c;
                            bb = child_bb;
                        },
                        None => {
                            let ghost nodes0 = self.nodes@;
                            let ghost boxes0 = self.boxes@;
                            let child = Node::from_aabb(child_bb);
                            self.nodes.push(child);
                            self.boxes = Ghost(self.boxes@.push(child_bb));
                            let ghost nodes1 = self.nodes@;
                            let ghost boxes1 = self.boxes@;
                            proof {
                                assert(nodes1 == nodes0.push(child));
                                assert forall|n: int| 0 <= n < nodes1.len() implies #[trigger] node_ok(nodes1, boxes1, n) by {
                                    if n < nodes0.len() {
                                        assert(node_ok(nodes0, boxes0, n));
                                        assert(nodes1[n] == nodes0[n]);
                                        assert(boxes1[n] == boxes0[n]);
                                    } else {
                                        assert(n == new_idx);
                                        assert forall|i: int| 0 <= i < 8 implies child_slot(nodes1[n], i) is None by {
                                            if let Node::Branch(cc) = child {
                                                assert(cc@[i] is None);
                                            }
                                        }
                                    }
                                }
                                assert forall|p: IVec3| #[trigger] get_in(nodes1, boxes1, 0, p) == get_in(nodes0, boxes0, 0, p) by {
                                    lemma_push_frame(nodes0, boxes0, child, child_bb, 0, p);
                                }
                                lemma_path_agree(nodes0, boxes0, nodes1, boxes1, 0, curr as int, pos);
                            }
                            let mut branches = branches;
                            branches[idx] = Some(new_idx);
                            let linked = Node::Branch(branches);
                            self.nodes.set(curr, linked);
                            proof {
                                let nodes2 = self.nodes@;
                                assert(nodes2 == nodes1.update(curr as int, linked));
                                assert(nodes1[curr as int] == nodes0[curr as int]);
                                assert(linked->Branch_0@ == nodes1[curr as int]->Branch_0@.update(idx as int, Some(new_idx)));
                                assert forall|p: IVec3| #[trigger] get_in(nodes2, boxes1, 0, p) == get_in(nodes1, boxes1, 0, p) by {
                                    lemma_link_frame(nodes1, boxes1, curr as int, idx as int, new_idx, linked, 0, p);
                                }
                                assert forall|n: int| 0 <= n < nodes2.len() implies #[trigger] node_ok(nodes2, boxes1, n) by {
                                    assert(node_ok(nodes1, boxes1, n));
                                    if n == curr {
                                        assert forall|i: int| 0 <= i < 8 implies match #[trigger] child_slot(nodes2[n], i) {
                                            Some(c) => n < c < nodes2.len() && boxes1[c as int] == boxes1[n].octant_spec(i),
                                            None => true,
                                        } by {
                                            assert(child_slot(nodes1[n], i) == branches@[i] || i == idx);
                                        }
                                    }
                                }
                                lemma_path_agree(nodes1, boxes1, nodes2, boxes1, 0, curr as int, pos);
                                lemma_path_extend(nodes2, boxes1, 0, curr as int, new_idx, pos);
                                assert forall|p: IVec3| #[trigger] self.spec_get(p) == before.spec_get(p) by {
                                    assert(get_in(nodes2, boxes1, 0, p) == get_in(nodes1, boxes1, 0, p));
                                    assert(get_in(nodes1, boxes1, 0, p) == get_in(nodes0, boxes0, 0, p));
                                    assert(at_start.spec_get(p) == before.spec_get(p));
                                }
                            }
                            curr = new_idx;
                            bb = child_bb;
                        },
                    }
                },
                Node::Leaf(leaves) => {
                    let ghost nodes0 = self.nodes@;
                    let mut leaves = leaves;
                    leaves[idx] = Some(voxel);
                    let written = Node::Leaf(leaves);
                    self.nodes.set(curr, written);
                    proof {
                        let nodes2 = self.nodes@;
                        let boxes = self.boxes@;
                        assert(nodes2 == nodes0.update(curr as int, written));
                        assert(written->Leaf_0@ == nodes0[curr as int]->Leaf_0@.update(idx as int, Some(voxel)));
                        assert(bb.extents == IVec3::splat_spec(1));
                        assert forall|p: IVec3| p != pos implies #[trigger] get_in(nodes2, boxes, 0, p) == get_in(nodes0, boxes, 0, p) by {
                            lemma_write_frame(nodes0, boxes, curr as int, idx as int, voxel, written, pos, 0, p);
                        }
                        lemma_path_agree(nodes0, boxes, nodes2, boxes, 0, curr as int, pos);
                        assert(leaves@[idx as int] == Some(voxel));
                        assert(get_in(nodes2, boxes, curr as int, pos) == Some(voxel));
                        assert forall|n: int| 0 <= n < nodes2.len() implies #[trigger] node_ok(nodes2, boxes, n) by {
                            assert(node_ok(nodes0, boxes, n));
                        }
                        assert forall|p: IVec3| #[trigger] self.spec_get(p) == (if p == pos {
                            Some(voxel)
                        } else {
                            old(self).spec_get(p)
                        }) by {
                            if p != pos {
                                assert(get_in(nodes2, boxes, 0, p) == get_in(nodes0, boxes, 0, p));
                                assert(at_start.spec_get(p) == before.spec_get(p));
                            }
                        }
                    }
                    return true;
                },
            }
        }
    }
}

impl Node {
    /// An empty node for box `bb`: a leaf for the unit cube, else a branch.
    pub fn from_aabb(bb: IAabb) -> (r: Node)
        ensures
            is_empty_node(r),
            (r is Leaf) == (max3(bb.extents.x as int, bb.extents.y as int, bb.extents.z as int) == 1),
    {
        if bb.is_unit() {
            Node::Leaf([None; 8])
        } else {
            Node::Branch([None; 8])
        }
    }
}

/// A voxel written at `pos` reads back at `pos`; a later write at another
/// position leaves it there, and a later write at `pos` replaces it.
pub proof fn lemma_insert_get(t0: Octree, t1: Octree, t2: Octree, pos: IVec3, v: Voxel, q: IVec3, w: Voxel, r: bool)
    requires
        t0.inserted(t1, pos, v, true),
        t1.inserted(t2, q, w, r),
    ensures
        t1.spec_get(pos) == Some(v),
        q != pos ==> t2.spec_get(pos) == Some(v),
        q == pos ==> t2.spec_get(pos) == Some(w),
        forall|p: IVec3| p != pos && p != q ==> #[trigger] t2.spec_get(p) == t0.spec_get(p),
{
    assert(t1.spec_get(pos) == Some(v));
    assert(t2.spec_get(pos) == if r && pos == q { Some(w) } else { t1.spec_get(pos) });
    if q == pos {
        assert(r == t1.aabb_spec().addressable(pos));
        assert(t0.aabb_spec().addressable(pos));
    }
    assert forall|p: IVec3| p != pos && p != q implies #[trigger] t2.spec_get(p) == t0.spec_get(p) by {
        assert(t2.spec_get(p) == t1.spec_get(p));
        assert(t1.spec_get(p) == t0.spec_get(p));
    }
}

/// The voxels under a node are at most the cells of its box.
proof fn lemma_count_bound(nodes: Seq<Node>, boxes: Seq<IAabb>, n: int)
    requires
        tree_ok(nodes, boxes),
        0 <= n < nodes.len(),
    ensures
        count_in(nodes, n) <= cube_cells(boxes[n].extents.x as int),
    decreases nodes.len() - n,
{
    assert(node_ok(nodes, boxes, n));
    let e = boxes[n].extents.x as int;
    let part = match nodes[n] {
        Node::Branch(_) => cube_cells(e / 2),
        Node::Leaf(_) => 1,
    };
    assert forall|i: int| 0 <= i < 8 implies #[trigger] slot_count(nodes, n, i) <= part by {
        if let Node::Branch(c) = nodes[n] {
            assert(child_slot(nodes[n], i) == c@[i]);
            if let Some(k) = c@[i] {
                lemma_count_bound(nodes, boxes, k as int);
            }
        }
    }
    lemma_prefix_bound(nodes, n, 8, part);
    assert(count_in(nodes, n) == count_prefix(nodes, n, 8));
    match nodes[n] {
        Node::Branch(_) => {
            assert(is_pow2(e) == (e % 2 == 0 && is_pow2(e / 2)));
            assert(e >= 2);
            assert(8 * cube_cells(e / 2) == cube_cells(e)) by (nonlinear_arith)
                requires
                    e % 2 == 0,
            ;
        },
        Node::Leaf(_) => {
            assert(e == 1);
            assert(cube_cells(1) == 8) by (nonlinear_arith);
        },
    }
}

proof fn lemma_prefix_bound(nodes: Seq<Node>, n: int, m: int, part: int)
    requires
        0 <= m <= 8,
        forall|i: int| 0 <= i < 8 ==> #[trigger] slot_count(nodes, n, i) <= part,
    ensures
        count_prefix(nodes, n, m) <= m * part,
    decreases m,
{
    if m > 0 {
        lemma_prefix_bound(nodes, n, m - 1, part);
        assert(count_prefix(nodes, n, m) == count_prefix(nodes, n, m - 1) + slot_count(nodes, n, m - 1));
        assert(slot_count(nodes, n, m - 1) <= part);
        assert((m - 1) * part + part == m * part) by (nonlinear_arith);
    } else {
        assert(m * part == 0) by (nonlinear_arith)
            requires
                m == 0,
        ;
    }
}

proof fn lemma_prefix_le(nodes: Seq<Node>, n: int, m: int)
    requires
        0 <= m <= 8,
    ensures
        count_prefix(nodes, n, m) <= count_in(nodes, n),
    decreases 8 - m,
{
    if m < 8 {
        lemma_prefix_le(nodes, n, m + 1);
    }
}

/// The sparse scene store.
pub struct SparseStorage {
    octree: Octree,
}

impl SparseStorage {
    pub closed spec fn octree_spec(&self) -> Octree {
        self.octree
    }

    /// The octree holds `generator`'s voxel at every lattice point of `bb`
    /// and nothing elsewhere.
    pub open spec fn holds_voxels_of(&self, generator: VoxelGenerator, bb: IAabb) -> bool {
        &&& self.octree_spec().wf()
        &&& forall|p: IVec3|
            #[trigger] self.octree_spec().spec_get(p) == if bb.in_lattice(p) {
                generator.lookup_spec(p)
            } else {
                None
            }
    }

    /// Builds the octree of `generator`'s voxels over `bb` (see
    /// `Octree::from_voxels`).
    pub fn from_voxels(generator: &VoxelGenerator, bb: IAabb) -> (r: SparseStorage)
        requires
            generator.wf(),
            bb.wf(),
            max3(bb.extents.x as int, bb.extents.y as int, bb.extents.z as int) < 0x4000_0000,
            (IAabb {
                origin: bb.origin,
                extents: IVec3::splat_spec(
                    pow2_above(max3(bb.extents.x as int, bb.extents.y as int, bb.extents.z as int)) as i32,
                ),
            }).wf(),
        ensures
            r.holds_voxels_of(*generator, bb),
    {
        SparseStorage { octree: Octree::from_voxels(generator, bb) }
    }

    /// The octree.
    pub fn octree(&self) -> (r: &Octree)
        ensures
            *r == self.octree_spec(),
    {
        &self.octree
    }
}

} // verus!
