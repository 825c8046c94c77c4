//! A loose octree: an arena of nodes addressed by index, and a table of
//! entries that each remember the node holding them.
use vstd::prelude::*;

use crate::geometry::{axis_sign, BoundingCube, Octant, Vec3, WORLD_LIMIT};
use crate::octree_proofs::{
    lemma_ancestor_after_growth, lemma_ancestor_grows, lemma_ancestor_inner, lemma_ancestor_prefix,
    lemma_ancestor_same_parents, lemma_old_on_chain, lemma_chain_none, lemma_chain_step, lemma_child_added,
    lemma_child_holds, lemma_contents_only, lemma_descend_path,
    lemma_descend_same, lemma_entries_kept, lemma_entries_removed, lemma_entry_added,
    lemma_entry_moved, lemma_entry_rebounded, lemma_grow_bounds, lemma_grow_needed,
    lemma_moved_children, lemma_node_removed, lemma_parent_added, lemma_parent_holds,
    lemma_pop_result, lemma_pow2_order, lemma_prune_none, lemma_prune_step, lemma_swap_result,
    lemma_tags_kept, lemma_tags_removed,
};

verus! {

/// Identifies an object which has been inserted into a `LooseOctree`.
pub type EntryID = u32;

/// The bound on the extent of every node of a tree: each coordinate of a node's
/// cube lies within `NODE_LIMIT` of the origin.
pub const NODE_LIMIT: i64 = 17_592_186_044_416;

/// A reference to a slot of the node arena.
#[derive(Clone, Copy, Debug, PartialEq, Eq, Structural)]
pub struct NodeID(pub usize);

impl NodeID {
    /// The index of the arena slot this identifier refers to.
    pub fn as_index(self) -> (r: usize)
        ensures
            r == self.0,
    {
        self.0
    }
}

/// One node of the tree.
pub struct Node {
    /// The cube this node subdivides.
    pub bcube: BoundingCube,
    /// Which octant of the parent node this node occupies (meaningless for the root).
    pub octant: Octant,
    /// The parent node; `None` for the root only.
    pub parent: Option<NodeID>,
    /// The child node in each octant, indexed by the octant's bits.
    pub children: [Option<NodeID>; 8],
    /// The entries held directly by this node.
    pub contents: Vec<EntryID>,
    /// A name that no other node of the tree ever had or will have.
    pub tag: Ghost<nat>,
}

/// One object of the tree: its bounding cube, the node holding it, and its payload.
pub struct Entry<T> {
    pub bcube: BoundingCube,
    pub node: NodeID,
    pub val: T,
}

/// A loose octree, maintaining the locations of objects in 3D space.
pub struct LooseOctree<T> {
    root: NodeID,
    nodes: Vec<Node>,
    entries: Vec<Entry<T>>,
    min_dist: i64,
    next_tag: Ghost<nat>,
}

/// `child` is the cube of the octant `o` of `parent`.
pub open spec fn placed_in(child: BoundingCube, o: Octant, parent: BoundingCube) -> bool {
    &&& parent.half_edge == 2 * child.half_edge
    &&& child.center.x == parent.center.x + axis_sign(o.x) * child.half_edge
    &&& child.center.y == parent.center.y + axis_sign(o.y) * child.half_edge
    &&& child.center.z == parent.center.z + axis_sign(o.z) * child.half_edge
}

/// A node's cube has a positive half-edge and lies within `NODE_LIMIT`.
pub open spec fn in_bounds(c: BoundingCube) -> bool {
    &&& 1 <= c.half_edge
    &&& -NODE_LIMIT <= c.center.x - c.half_edge && c.center.x + c.half_edge <= NODE_LIMIT
    &&& -NODE_LIMIT <= c.center.y - c.half_edge && c.center.y + c.half_edge <= NODE_LIMIT
    &&& -NODE_LIMIT <= c.center.z - c.half_edge && c.center.z + c.half_edge <= NODE_LIMIT
}

/// The root's cube stays close to the world: its centre is within
/// `WORLD_LIMIT` plus half its half-edge of the origin.
pub open spec fn root_bounds(c: BoundingCube) -> bool {
    &&& c.half_edge <= 8 * WORLD_LIMIT
    &&& -(2 * WORLD_LIMIT + c.half_edge) <= 2 * c.center.x <= 2 * WORLD_LIMIT + c.half_edge
    &&& -(2 * WORLD_LIMIT + c.half_edge) <= 2 * c.center.y <= 2 * WORLD_LIMIT + c.half_edge
    &&& -(2 * WORLD_LIMIT + c.half_edge) <= 2 * c.center.z <= 2 * WORLD_LIMIT + c.half_edge
}

/// A node of half-edge `nh` is split further for a cube of half-edge `bh`:
/// the cube is less than half its size, the node is above the minimum size,
/// and its half-edge halves exactly.
pub open spec fn descends(nh: int, bh: int, min: int) -> bool {
    nh > 2 * bh && nh > min && nh % 2 == 0
}

/// `b` belongs in the node with cube `n`: its centre is within `n`, it is
/// no larger than `n`, and `n` is not split further for it.
pub open spec fn fits(n: BoundingCube, b: BoundingCube, min: int) -> bool {
    &&& n.spec_octant(b.center) is Some
    &&& n.half_edge >= b.half_edge
    &&& !descends(n.half_edge as int, b.half_edge as int, min)
}

/// The arena index an optional node reference names, or `-1` for none.
pub open spec fn slot_index(o: Option<NodeID>) -> int {
    match o {
        Some(n) => n.0 as int,
        None => -1,
    }
}

pub open spec fn has_child(n: Node) -> bool {
    ||| n.children@[0] is Some
    ||| n.children@[1] is Some
    ||| n.children@[2] is Some
    ||| n.children@[3] is Some
    ||| n.children@[4] is Some
    ||| n.children@[5] is Some
    ||| n.children@[6] is Some
    ||| n.children@[7] is Some
}

pub open spec fn link_up(nodes: Seq<Node>, i: int) -> bool {
    match nodes[i].parent {
        Some(p) => {
            &&& 0 <= p.0 < nodes.len()
            &&& nodes[p.0 as int].children@[nodes[i].octant.spec_bits()] == Some(NodeID(i as usize))
            &&& placed_in(nodes[i].bcube, nodes[i].octant, nodes[p.0 as int].bcube)
        },
        None => true,
    }
}

pub open spec fn link_down(nodes: Seq<Node>, i: int) -> bool {
    forall|k: int|
        0 <= k < 8 && (#[trigger] nodes[i].children@[k]) is Some ==> {
            let c = slot_index(nodes[i].children@[k]);
            &&& 0 <= c < nodes.len()
            &&& nodes[c].parent == Some(NodeID(i as usize))
            &&& nodes[c].octant.spec_bits() == k
        }
}

pub open spec fn node_wf(nodes: Seq<Node>, root: int, i: int) -> bool {
    &&& (nodes[i].parent is None <==> i == root)
    &&& link_up(nodes, i)
    &&& link_down(nodes, i)
    &&& in_bounds(nodes[i].bcube)
    &&& (i == root ==> root_bounds(nodes[i].bcube))
    &&& nodes[i].bcube.half_edge <= nodes[root].bcube.half_edge
}

/// The node arena forms a tree under `root`: parent and child references
/// agree, each child is the cube of its octant in its parent, and every cube
/// is within bounds.
pub open spec fn nodes_wf(nodes: Seq<Node>, root: int) -> bool {
    &&& 0 <= root < nodes.len()
    &&& forall|i: int| 0 <= i < nodes.len() ==> #[trigger] node_wf(nodes, root, i)
}

pub open spec fn entry_wf<T>(nodes: Seq<Node>, entries: Seq<Entry<T>>, min: int, e: int) -> bool {
    let n = entries[e].node.0 as int;
    &&& 0 <= n < nodes.len()
    &&& nodes[n].contents@.contains(e as u32)
    &&& fits(nodes[n].bcube, entries[e].bcube, min)
    &&& entries[e].bcube.valid()
}

pub open spec fn contents_wf<T>(nodes: Seq<Node>, entries: Seq<Entry<T>>, i: int) -> bool {
    &&& nodes[i].contents@.no_duplicates()
    &&& forall|k: int|
        0 <= k < nodes[i].contents@.len() ==> {
            let e = #[trigger] nodes[i].contents@[k];
            &&& (e as int) < entries.len()
            &&& entries[e as int].node.0 as int == i
        }
}

/// The whole tree is consistent: the node arena is a tree, every entry is
/// held by the node it names and belongs there, and every node holds only
/// entries that name it.
pub open spec fn tree_wf<T>(nodes: Seq<Node>, entries: Seq<Entry<T>>, root: int, min: int) -> bool {
    &&& nodes_wf(nodes, root)
    &&& entries_wf(nodes, entries, min)
}

pub open spec fn entries_wf<T>(nodes: Seq<Node>, entries: Seq<Entry<T>>, min: int) -> bool {
    &&& entries.len() <= u32::MAX
    &&& forall|e: int| 0 <= e < entries.len() ==> #[trigger] entry_wf(nodes, entries, min, e)
    &&& forall|i: int| 0 <= i < nodes.len() ==> #[trigger] contents_wf(nodes, entries, i)
}

/// Every node carries a distinct tag, below `next`.
pub open spec fn tags_wf(nodes: Seq<Node>, next: nat) -> bool {
    &&& forall|i: int| 0 <= i < nodes.len() ==> (#[trigger] nodes[i]).tag@ < next
    &&& forall|i: int, j: int| 0 <= i < nodes.len() && 0 <= j < nodes.len() && i != j ==> (#[trigger] nodes[i]).tag@ != (#[trigger] nodes[j]).tag@
}

impl<T> LooseOctree<T> {
    pub closed spec fn spec_next_tag(&self) -> nat {
        self.next_tag@
    }

    pub closed spec fn spec_nodes(&self) -> Seq<Node> {
        self.nodes@
    }

    pub closed spec fn spec_entries(&self) -> Seq<Entry<T>> {
        self.entries@
    }

    pub closed spec fn spec_root(&self) -> int {
        self.root.0 as int
    }

    pub closed spec fn spec_min_dist(&self) -> int {
        self.min_dist as int
    }

    pub open spec fn wf(&self) -> bool {
        &&& tree_wf(self.spec_nodes(), self.spec_entries(), self.spec_root(), self.spec_min_dist())
        &&& tags_wf(self.spec_nodes(), self.spec_next_tag())
    }

    /// Create a new octree whose root node covers `initial`, and which never
    /// splits a node whose half-edge is not above `min`.
    ///
    /// Half-edges are integers, so a node is split only while its half-edge
    /// halves exactly (see `descends`): splitting goes down to `min` when
    /// `initial.half_edge` is `min` (or less) times a power of two, and
    /// otherwise stops at the first odd half-edge above `min`.
    pub fn new(initial: BoundingCube, min: i64) -> (r: LooseOctree<T>)
        requires
            initial.valid(),
        ensures
            r.wf(),
            r.spec_nodes().len() == 1,
            r.spec_root() == 0,
            r.spec_nodes()[0].bcube == initial,
            r.spec_nodes()[0].octant == (Octant { x: false, y: false, z: false }),
            r.spec_nodes()[0].parent is None,
            r.spec_nodes()[0].contents@.len() == 0,
            !has_child(r.spec_nodes()[0]),
            r.spec_entries().len() == 0,
            r.spec_min_dist() == min,
    {
        let mut nodes: Vec<Node> = Vec::new();
        nodes.push(
            Node {
                bcube: initial,
                octant: Octant { x: false, y: false, z: false },
                parent: None,
                children: [None, None, None, None, None, None, None, None],
                contents: Vec::new(),
                tag: Ghost(0),
            },
        );
        let r = LooseOctree { root: NodeID(0), nodes, entries: Vec::new(), min_dist: min, next_tag: Ghost(1) };
        assert(node_wf(r.nodes@, 0, 0));
        r
    }
}

/// A point within `WORLD_LIMIT` of the origin on every axis.
pub open spec fn in_world(v: Vec3) -> bool {
    &&& -WORLD_LIMIT <= v.x <= WORLD_LIMIT
    &&& -WORLD_LIMIT <= v.y <= WORLD_LIMIT
    &&& -WORLD_LIMIT <= v.z <= WORLD_LIMIT
}

/// The octant that a node occupies in the parent grown from it toward `v`:
/// along each axis, the positive one exactly when `v` lies on the negative side
/// of the node's centre, so that the parent extends toward `v`.
pub open spec fn octant_toward(c: Vec3, v: Vec3) -> Octant {
    Octant { x: v.x < c.x, y: v.y < c.y, z: v.z < c.z }
}

/// The node reached from node `i` by following, while `b` is to go further
/// down, the child in the octant holding `b`'s centre.
pub open spec fn descend_from(nodes: Seq<Node>, i: int, b: BoundingCube, min: int) -> int
    decreases (if 0 <= i < nodes.len() && nodes[i].bcube.half_edge > 0 {
        nodes[i].bcube.half_edge as int
    } else {
        0
    }),
{
    if 0 <= i < nodes.len() && nodes[i].bcube.half_edge > 0 {
        match nodes[i].bcube.spec_octant(b.center) {
            Some(o) => {
                let c = slot_index(nodes[i].children@[o.spec_bits()]);
                if descends(nodes[i].bcube.half_edge as int, b.half_edge as int, min) && 0 <= c
                    < nodes.len() && 0 < nodes[c].bcube.half_edge < nodes[i].bcube.half_edge {
                    descend_from(nodes, c, b, min)
                } else {
                    i
                }
            },
            None => i,
        }
    } else {
        i
    }
}

/// One step of `descend_from`: from node `i` down to its child `c`.
pub open spec fn descend_step(nodes: Seq<Node>, i: int, c: int, b: BoundingCube, min: int) -> bool {
    &&& 0 <= i < nodes.len()
    &&& nodes[i].bcube.half_edge > 0
    &&& nodes[i].bcube.spec_octant(b.center) is Some
    &&& descends(nodes[i].bcube.half_edge as int, b.half_edge as int, min)
    &&& slot_index(nodes[i].children@[nodes[i].bcube.spec_octant(b.center)->0.spec_bits()]) == c
    &&& 0 <= c < nodes.len()
    &&& 0 < nodes[c].bcube.half_edge < nodes[i].bcube.half_edge
}

pub open spec fn descend_path(nodes: Seq<Node>, path: Seq<int>, b: BoundingCube, min: int) -> bool {
    &&& path.len() >= 1
    &&& forall|k: int|
        0 <= k < path.len() - 1 ==> #[trigger] descend_step(nodes, path[k], path[k + 1], b, min)
}

/// After the node at `id` is removed by moving the last node `last` into its
/// slot: the old index of the node now at `j`.
pub open spec fn moved_from(id: int, last: int, j: int) -> int {
    if j == id {
        last
    } else {
        j
    }
}

/// After the same removal: the new index of the node that was at `x`.
pub open spec fn moved_to(id: int, last: int, x: int) -> int {
    if x == last {
        id
    } else {
        x
    }
}

pub open spec fn moved_ref(id: int, last: int, o: Option<NodeID>) -> Option<NodeID> {
    match o {
        Some(n) => Some(NodeID(moved_to(id, last, n.0 as int) as usize)),
        None => None,
    }
}

/// A child slot after the removal: the removed node's slot is emptied, the
/// moved node's slot follows it.
pub open spec fn moved_slot(id: int, last: int, o: Option<NodeID>) -> Option<NodeID> {
    if o == Some(NodeID(id as usize)) {
        None
    } else {
        moved_ref(id, last, o)
    }
}

/// `f` is `old` with the childless, non-root node `id` removed by swapping in the last node.
pub open spec fn removed_by_swap(old: Seq<Node>, f: Seq<Node>, id: int) -> bool {
    let last = old.len() - 1;
    &&& f.len() == last
    &&& forall|j: int|
        0 <= j < last ==> {
            let s = moved_from(id, last, j);
            &&& (#[trigger] f[j]).bcube == old[s].bcube
            &&& f[j].octant == old[s].octant
            &&& f[j].contents == old[s].contents
            &&& f[j].tag == old[s].tag
            &&& f[j].parent == moved_ref(id, last, old[s].parent)
            &&& forall|k: int|
                0 <= k < 8 ==> #[trigger] f[j].children@[k] == moved_slot(
                    id,
                    last,
                    old[s].children@[k],
                )
        }
}

/// `s1` is `old` with the slot of `parent` that held `id` emptied.
pub open spec fn slot_cleared(old: Seq<Node>, s1: Seq<Node>, parent: int, slot: int) -> bool {
    &&& s1.len() == old.len()
    &&& forall|j: int|
        0 <= j < old.len() ==> {
            &&& (#[trigger] s1[j]).bcube == old[j].bcube
            &&& s1[j].octant == old[j].octant
            &&& s1[j].contents == old[j].contents
            &&& s1[j].tag == old[j].tag
            &&& s1[j].parent == old[j].parent
            &&& forall|k: int|
                0 <= k < 8 ==> #[trigger] s1[j].children@[k] == if j == parent && k == slot {
                    None
                } else {
                    old[j].children@[k]
                }
        }
}

pub open spec fn pow2(k: nat) -> int
    decreases k,
{
    if k == 0 {
        1
    } else {
        2 * pow2((k - 1) as nat)
    }
}

/// Node `x` is one of the `k` nodes from `i` upward: `i` and its next `k - 1` ancestors.
pub open spec fn in_chain(nodes: Seq<Node>, i: int, k: nat, x: int) -> bool {
    exists|j: nat| j < k && #[trigger] ancestor(nodes, i, j) == x
}

/// `fin` is `old` with exactly the `k` nodes from `id` upward removed, each of
/// them a non-root node holding nothing and with no child but the one below
/// it: their tags are gone, every other node survives with its cube, contents
/// and tag, and pruning stopped at node `r` of `fin`, the next one up, whose
/// slot toward the removed run is empty.
pub open spec fn pruned_chain(old: Seq<Node>, fin: Seq<Node>, id: int, k: nat, r: int) -> bool {
    &&& fin.len() + k == old.len()
    &&& 0 <= r < fin.len()
    &&& fin[r].tag == old[ancestor(old, id, k)].tag
    &&& (k == 0 ==> fin == old && r == id)
    &&& (k > 0 ==> fin[r].children@[old[ancestor(old, id, (k - 1) as nat)].octant.spec_bits()] is None)
    &&& forall|j: nat| j < k ==> {
        &&& (#[trigger] old[ancestor(old, id, j)]).contents@.len() == 0
        &&& old[ancestor(old, id, j)].parent is Some
        &&& forall|s: int|
            0 <= s < 8 && (#[trigger] old[ancestor(old, id, j)].children@[s]) is Some ==> j > 0
                && slot_index(old[ancestor(old, id, j)].children@[s]) == ancestor(old, id, (j - 1) as nat)
    }
    &&& forall|j: nat, i: int|
        j < k && 0 <= i < fin.len() ==> (#[trigger] fin[i]).tag != (#[trigger] old[ancestor(old, id, j)]).tag
    &&& forall|x: int|
        0 <= x < old.len() && !in_chain(old, id, k, x) ==> #[trigger] survives(old[x], fin)
    &&& forall|i: int| 0 <= i < fin.len() ==> #[trigger] tag_from(fin[i], old)
}

/// Some node of `fin` has the tag, cube and contents of `n`.
pub open spec fn survives(n: Node, fin: Seq<Node>) -> bool {
    exists|i: int| 0 <= i < fin.len() && (#[trigger] fin[i]).tag == n.tag && fin[i].bcube == n.bcube && fin[i].contents == n.contents
}

/// Some node of `old` has the tag of `n`.
pub open spec fn tag_from(n: Node, old: Seq<Node>) -> bool {
    exists|x: int| 0 <= x < old.len() && (#[trigger] old[x]).tag == n.tag
}

/// Node `n` holds only the entry `ent`, has no children and is not the root,
/// and the new cube `b` of that entry must leave it upward: its centre is
/// outside `n`, or it is larger than `n`.
pub open spec fn emptied_by_leaving(n: Node, ent: EntryID, b: BoundingCube) -> bool {
    &&& n.parent is Some
    &&& n.contents@ == seq![ent]
    &&& !has_child(n)
    &&& (n.bcube.spec_octant(b.center) is None || n.bcube.half_edge < b.half_edge)
}

/// No node of `fin` carries the tag of node `i` of `old`, nor of any of its
/// next `k - 1` ancestors there.
pub open spec fn chain_gone(old: Seq<Node>, fin: Seq<Node>, i: int, k: nat) -> bool {
    forall|j: nat, x: int|
        #![trigger fin[x], ancestor(old, i, j)]
        j < k && 0 <= x < fin.len() ==> fin[x].tag != old[ancestor(old, i, j)].tag
}

/// A search from node `start` (of half-edge `h0`) to node `r` climbed `g`
/// levels and then went down `d` levels, meeting at a common node `top`, and
/// created at most one node per level: `fin` has at most `g + d` nodes more
/// than the `old_len` the arena had, each of them on the climb from `start`
/// to `top` or on the way down from `top` to `r`.
pub open spec fn search_span(old_len: int, fin: Seq<Node>, start: int, h0: int, r: int, g: nat, d: nat) -> bool {
    let top = ancestor(fin, r, d);
    &&& fin.len() <= old_len + g + d
    &&& ancestor(fin, start, g) == top
    &&& fin[top].bcube.half_edge == pow2(g) * h0
    &&& fin[top].bcube.half_edge == pow2(d) * fin[r].bcube.half_edge
    &&& forall|i: int|
        old_len <= i < fin.len() ==> #[trigger] in_chain(fin, start, g + 1, i) || in_chain(fin, r, d + 1, i)
}

/// Some node of `fin` has the tag and cube of `n`, and holds what `n` held,
/// or that and the entry `ent`.
pub open spec fn kept_as(n: Node, fin: Seq<Node>, ent: EntryID) -> bool {
    exists|y: int|
        0 <= y < fin.len() && (#[trigger] fin[y]).tag == n.tag && fin[y].bcube == n.bcube && (fin[y].contents@
            == n.contents@ || fin[y].contents@ == n.contents@.push(ent))
}

/// Every node of `old` but node `i` and the `k` nodes from `i` upward is kept in `fin`.
pub open spec fn others_kept(old: Seq<Node>, fin: Seq<Node>, i: int, k: nat, ent: EntryID) -> bool {
    forall|x: int| 0 <= x < old.len() && x != i && !in_chain(old, i, k, x) ==> #[trigger] kept_as(old[x], fin, ent)
}

/// Pruning that removed `k` nodes stopped at node `s` of `fin`, `k` levels
/// above a node of half-edge `h`, and `s` is kept for a reason: it is the
/// root, holds entries, or has a child.
pub open spec fn stopped_at(fin: Seq<Node>, s: int, k: nat, h: int) -> bool {
    &&& 0 <= s < fin.len()
    &&& !prunable(fin[s])
    &&& fin[s].bcube.half_edge == pow2(k) * h
}

/// A node that pruning may remove: not the root, holding no entries, with no children.
pub open spec fn prunable(n: Node) -> bool {
    &&& n.parent is Some
    &&& n.contents@.len() == 0
    &&& !has_child(n)
}

/// One step up from node `a`: its parent, or `a` itself at the top.
pub open spec fn step_up(nodes: Seq<Node>, a: int) -> int {
    if 0 <= a < nodes.len() && nodes[a].parent is Some {
        slot_index(nodes[a].parent)
    } else {
        a
    }
}

/// The node `k` steps above node `i`, stopping at the top.
pub open spec fn ancestor(nodes: Seq<Node>, i: int, k: nat) -> int
    decreases k,
{
    if k == 0 {
        i
    } else {
        step_up(nodes, ancestor(nodes, i, (k - 1) as nat))
    }
}

impl<T> LooseOctree<T> {
    pub open spec fn keeps_root_and_entries_of(&self, old: &Self) -> bool {
        &&& self.spec_root() == old.spec_root()
        &&& self.spec_entries() == old.spec_entries()
        &&& self.spec_min_dist() == old.spec_min_dist()
    }

    // Return the node which should hold `b`, searching from node `start`. Nodes
    // are created as needed, above the root as well as below.
    #[verifier::spinoff_prover]
    #[verifier::rlimit(60)]
    fn get_node(&mut self, start: usize, b: BoundingCube) -> (r: usize)
        requires
            old(self).wf(),
            start < old(self).spec_nodes().len(),
            b.valid(),
        ensures
            final(self).wf(),
            final(self).spec_entries() == old(self).spec_entries(),
            final(self).spec_min_dist() == old(self).spec_min_dist(),
            r < final(self).spec_nodes().len(),
            fits(final(self).spec_nodes()[r as int].bcube, b, final(self).spec_min_dist()),
            final(self).spec_nodes().len() >= old(self).spec_nodes().len(),
            forall|i: int|
                0 <= i < old(self).spec_nodes().len() ==> {
                    &&& (#[trigger] final(self).spec_nodes()[i]).bcube == old(self).spec_nodes()[i].bcube
                    &&& final(self).spec_nodes()[i].contents == old(self).spec_nodes()[i].contents
                    &&& final(self).spec_nodes()[i].tag == old(self).spec_nodes()[i].tag
                    &&& (i != old(self).spec_root() ==> final(self).spec_nodes()[i].parent == old(self).spec_nodes()[i].parent)
                },
            forall|i: int|
                old(self).spec_nodes().len() <= i < final(self).spec_nodes().len() ==> (#[trigger] final(self).spec_nodes()[i]).contents@.len() == 0,
            final(self).spec_root() == old(self).spec_root() || final(self).spec_root() >= old(self).spec_nodes().len(),
            final(self).spec_next_tag() >= old(self).spec_next_tag(),
            forall|i: int|
                old(self).spec_nodes().len() <= i < final(self).spec_nodes().len() ==> (#[trigger] final(self).spec_nodes()[i]).tag@
                    >= old(self).spec_next_tag(),
            forall|i: int|
                0 <= i < old(self).spec_nodes().len() && (old(self).spec_nodes()[i].bcube.spec_octant(b.center) is None
                    || old(self).spec_nodes()[i].bcube.half_edge < b.half_edge) ==> (#[trigger] final(self).spec_nodes()[i]).children
                    == old(self).spec_nodes()[i].children,
            exists|g: nat, d: nat| #[trigger] search_span(
                old(self).spec_nodes().len() as int,
                final(self).spec_nodes(),
                start as int,
                old(self).spec_nodes()[start as int].bcube.half_edge as int,
                r as int,
                g,
                d,
            ),
            start == old(self).spec_root() ==> r == descend_from(
                final(self).spec_nodes(),
                final(self).spec_root(),
                b,
                final(self).spec_min_dist(),
            ),
            fits(old(self).spec_nodes()[start as int].bcube, b, old(self).spec_min_dist()) ==> {
                &&& r == start
                &&& final(self).spec_nodes() == old(self).spec_nodes()
                &&& final(self).spec_root() == old(self).spec_root()
            },
            forall|k: nat|
                start == old(self).spec_root() && old(self).spec_nodes()[start as int].bcube.spec_octant(b.center) is Some
                    && b.half_edge == #[trigger] pow2(k) * old(self).spec_nodes()[start as int].bcube.half_edge ==> {
                    &&& final(self).spec_nodes().len() == old(self).spec_nodes().len() + k
                    &&& final(self).spec_nodes()[final(self).spec_root()].bcube.half_edge == b.half_edge
                    &&& r == final(self).spec_root()
                    &&& ancestor(final(self).spec_nodes(), start as int, k) == final(self).spec_root()
                    &&& forall|jj: nat| jj <= k ==> #[trigger] final(self).spec_nodes()[ancestor(final(self).spec_nodes(), start as int, jj)].bcube.half_edge
                        == pow2(jj) * old(self).spec_nodes()[start as int].bcube.half_edge
                },
    {
        let ghost old_nodes = self.nodes@;
        let ghost unmoved = fits(old_nodes[start as int].bcube, b, self.min_dist as int);
        let ghost from_root = start == self.root.0;
        let ghost h0 = old_nodes[start as int].bcube.half_edge as int;
        let ghost grow = from_root && old_nodes[start as int].bcube.spec_octant(b.center) is Some
            && exists|k: nat| b.half_edge == #[trigger] pow2(k) * h0;
        let ghost kk: nat = if grow {
            choose|k: nat| b.half_edge == #[trigger] pow2(k) * h0
        } else {
            0
        };
        let ghost mut j: nat = 0;
        assert(node_wf(old_nodes, self.root.0 as int, start as int));
        assert(pow2(0) * h0 == h0);
        assert(ancestor(old_nodes, start as int, 0) == start);
        let ghost mut g: nat = 0;
        let mut id = start;
        // Climb until the node holds the centre of `b` and is no smaller than `b`.
        loop
            invariant
                self.wf(),
                id < self.nodes@.len(),
                self.entries@ == old(self).entries@,
                self.min_dist == old(self).min_dist,
                self.nodes@.len() >= old_nodes.len(),
                forall|i: int|
                    0 <= i < old_nodes.len() ==> {
                        &&& (#[trigger] self.nodes@[i]).bcube == old_nodes[i].bcube
                        &&& self.nodes@[i].contents == old_nodes[i].contents
                        &&& self.nodes@[i].tag == old_nodes[i].tag
                        &&& (i != old(self).root.0 ==> self.nodes@[i].parent == old_nodes[i].parent)
                    },
                self.root.0 == old(self).root.0 || self.root.0 >= old_nodes.len(),
                self.next_tag@ >= old(self).next_tag@,
                forall|i: int| old_nodes.len() <= i < self.nodes@.len() ==> (#[trigger] self.nodes@[i]).tag@ >= old(self).next_tag@,
                forall|i: int|
                    0 <= i < old_nodes.len() && (old_nodes[i].bcube.spec_octant(b.center) is None || old_nodes[i].bcube.half_edge < b.half_edge)
                        ==> (#[trigger] self.nodes@[i]).children == old_nodes[i].children,
                forall|i: int| old_nodes.len() <= i < self.nodes@.len() ==> (#[trigger] self.nodes@[i]).contents@.len() == 0,
                self.nodes@.len() <= old_nodes.len() + g,
                forall|i: int| old_nodes.len() <= i < self.nodes@.len() ==> #[trigger] in_chain(self.nodes@, start as int, g + 1, i),
                ancestor(self.nodes@, start as int, g) == id,
                forall|jj: nat| jj <= g ==> #[trigger] self.nodes@[ancestor(self.nodes@, start as int, jj)].bcube.half_edge == pow2(jj) * h0,
                from_root ==> id == self.root.0,
                unmoved ==> id == start && self.nodes@ == old_nodes && self.root == old(self).root,
                b.valid(),
                unmoved == fits(old_nodes[start as int].bcube, b, self.min_dist as int),
                start < old_nodes.len(),
                h0 >= 1,
                grow ==> b.half_edge == pow2(kk) * h0,
                grow ==> {
                    &&& self.nodes@.len() == old_nodes.len() + j
                    &&& self.nodes@[id as int].bcube.half_edge == pow2(j) * h0
                    &&& self.nodes@[id as int].bcube.spec_octant(b.center) is Some
                    &&& j <= kk
                    &&& id == self.root.0
                    &&& ancestor(self.nodes@, start as int, j) == id
                    &&& forall|jj: nat| jj <= j ==> #[trigger] self.nodes@[ancestor(self.nodes@, start as int, jj)].bcube.half_edge == pow2(jj) * h0
                },
            ensures
                self.nodes@.len() <= old_nodes.len() + g,
                forall|i: int| old_nodes.len() <= i < self.nodes@.len() ==> #[trigger] in_chain(self.nodes@, start as int, g + 1, i),
                ancestor(self.nodes@, start as int, g) == id,
                self.nodes@[id as int].bcube.half_edge == pow2(g) * h0,
                self.nodes@[id as int].bcube.spec_octant(b.center) is Some,
                self.nodes@[id as int].bcube.half_edge >= b.half_edge,
                grow ==> {
                    &&& self.nodes@.len() == old_nodes.len() + kk
                    &&& self.nodes@[id as int].bcube.half_edge == b.half_edge
                    &&& id == self.root.0
                    &&& ancestor(self.nodes@, start as int, kk) == id
                    &&& forall|jj: nat| jj <= kk ==> #[trigger] self.nodes@[ancestor(self.nodes@, start as int, jj)].bcube.half_edge == pow2(jj) * h0
                },
            decreases 2 * NODE_LIMIT - self.nodes@[id as int].bcube.half_edge,
        {
            let nb = self.nodes[id].bcube;
            assert(node_wf(self.nodes@, self.root.0 as int, id as int));
            if nb.octant(b.center).is_some() && nb.half_edge >= b.half_edge {
                proof {
                    if grow {
                        lemma_pow2_order(j, kk, h0);
                    }
                }
                break;
            }
            proof {
                if grow {
                    lemma_pow2_order(j, kk, h0);
                }
            }
            match self.nodes[id].parent {
                Some(p) => {
                    assert(node_wf(self.nodes@, self.root.0 as int, p.0 as int));
                    proof {
                        assert(ancestor(self.nodes@, start as int, g + 1) == step_up(self.nodes@, ancestor(self.nodes@, start as int, g)));
                        assert(pow2(g + 1) == 2 * pow2(g));
                        assert(pow2(g + 1) * h0 == 2 * (pow2(g) * h0)) by (nonlinear_arith)
                            requires
                                pow2(g + 1) == 2 * pow2(g),
                        ;
                        assert forall|i: int| old_nodes.len() <= i < self.nodes@.len() implies #[trigger] in_chain(self.nodes@, start as int, g + 2, i) by {
                            assert(in_chain(self.nodes@, start as int, g + 1, i));
                            let jj = choose|jj: nat| jj < g + 1 && #[trigger] ancestor(self.nodes@, start as int, jj) == i;
                        }
                        g = g + 1;
                    }
                    id = p.0;
                },
                None => {
                    proof {
                        lemma_grow_needed(nb, b);
                    }
                    let ghost below = self.nodes@;
                    let ghost below_root = self.root.0 as int;
                    let ghost prev = id as int;
                    id = self.make_parent_toward(id, b.center);
                    proof {
                        let na = self.nodes@;
                        assert forall|jj: nat| jj < g implies 0 <= #[trigger] ancestor(below, start as int, jj) < below.len()
                            && na[ancestor(below, start as int, jj)].parent == below[ancestor(below, start as int, jj)].parent by {
                            lemma_ancestor_grows(below, below_root, start as int, jj);
                            lemma_pow2_order(jj, g, h0);
                            assert(ancestor(below, start as int, jj) != prev);
                        }
                        lemma_ancestor_prefix(below, na, start as int, g);
                        assert(ancestor(na, start as int, g + 1) == step_up(na, ancestor(na, start as int, g)));
                        assert(pow2(g + 1) == 2 * pow2(g));
                        assert(pow2(g + 1) * h0 == 2 * (pow2(g) * h0)) by (nonlinear_arith)
                            requires
                                pow2(g + 1) == 2 * pow2(g),
                        ;
                        assert forall|jj: nat| jj <= g + 1 implies #[trigger] na[ancestor(na, start as int, jj)].bcube.half_edge == pow2(jj) * h0 by {
                            if jj <= g {
                                lemma_ancestor_grows(below, below_root, start as int, jj);
                                assert(na[ancestor(below, start as int, jj)].bcube == below[ancestor(below, start as int, jj)].bcube);
                            }
                        }
                        assert forall|i: int| old_nodes.len() <= i < na.len() implies #[trigger] in_chain(na, start as int, g + 2, i) by {
                            if i < below.len() {
                                assert(in_chain(below, start as int, g + 1, i));
                                let jj = choose|jj: nat| jj < g + 1 && #[trigger] ancestor(below, start as int, jj) == i;
                                assert(ancestor(na, start as int, jj) == i);
                            } else {
                                assert(ancestor(na, start as int, g + 1) == i);
                            }
                        }
                        g = g + 1;
                        if grow {
                            let nn = self.nodes@;
                            assert forall|jj: nat| jj < j implies 0 <= #[trigger] ancestor(below, start as int, jj) < below.len()
                                && nn[ancestor(below, start as int, jj)].parent == below[ancestor(below, start as int, jj)].parent by {
                                lemma_ancestor_grows(below, below_root, start as int, jj);
                                lemma_pow2_order(jj, j, h0);
                                assert(ancestor(below, start as int, jj) != prev);
                            }
                            lemma_ancestor_prefix(below, nn, start as int, j);
                            assert(ancestor(nn, start as int, j + 1) == step_up(nn, ancestor(nn, start as int, j)));
                            assert forall|jj: nat| jj <= j + 1 implies #[trigger] nn[ancestor(nn, start as int, jj)].bcube.half_edge == pow2(jj) * h0 by {
                                if jj <= j {
                                    lemma_ancestor_grows(below, below_root, start as int, jj);
                                    assert(nn[ancestor(below, start as int, jj)].bcube == below[ancestor(below, start as int, jj)].bcube);
                                } else {
                                    assert(pow2(j + 1) == 2 * pow2(j));
                                    assert(pow2(j + 1) * h0 == 2 * (pow2(j) * h0)) by (nonlinear_arith)
                                        requires
                                            pow2(j + 1) == 2 * pow2(j),
                                    ;
                                }
                            }
                            lemma_parent_holds(nb, octant_toward(nb.center, b.center), self.nodes@[id as int].bcube, b.center);
                            assert(pow2(j + 1) == 2 * pow2(j));
                            assert(pow2(j + 1) * h0 == 2 * (pow2(j) * h0)) by (nonlinear_arith)
                                requires
                                    pow2(j + 1) == 2 * pow2(j),
                            ;
                            j = j + 1;
                        }
                    }
                },
            }
        }
        let ghost top = id as int;
        let ghost path: Seq<int> = seq![top];
        let ghost after_ascent = self.nodes@;
        let ghost mut d: nat = 0;
        assert(ancestor(self.nodes@, id as int, 0) == id);
        assert forall|i: int| old_nodes.len() <= i < self.nodes@.len() implies #[trigger] in_chain(self.nodes@, start as int, g + 1, i)
            || in_chain(self.nodes@, id as int, d + 1, i) by {
            assert(in_chain(self.nodes@, start as int, g + 1, i));
        }
        assert(pow2(0) * self.nodes@[id as int].bcube.half_edge == self.nodes@[id as int].bcube.half_edge);
        // Descend while `b` belongs further down.
        loop
            invariant
                self.wf(),
                id < self.nodes@.len(),
                self.entries@ == old(self).entries@,
                self.min_dist == old(self).min_dist,
                self.nodes@.len() >= old_nodes.len(),
                forall|i: int|
                    0 <= i < old_nodes.len() ==> {
                        &&& (#[trigger] self.nodes@[i]).bcube == old_nodes[i].bcube
                        &&& self.nodes@[i].contents == old_nodes[i].contents
                        &&& self.nodes@[i].tag == old_nodes[i].tag
                        &&& (i != old(self).root.0 ==> self.nodes@[i].parent == old_nodes[i].parent)
                    },
                self.root.0 == old(self).root.0 || self.root.0 >= old_nodes.len(),
                self.next_tag@ >= old(self).next_tag@,
                forall|i: int| old_nodes.len() <= i < self.nodes@.len() ==> (#[trigger] self.nodes@[i]).tag@ >= old(self).next_tag@,
                forall|i: int|
                    0 <= i < old_nodes.len() && (old_nodes[i].bcube.spec_octant(b.center) is None || old_nodes[i].bcube.half_edge < b.half_edge)
                        ==> (#[trigger] self.nodes@[i]).children == old_nodes[i].children,
                forall|i: int| old_nodes.len() <= i < self.nodes@.len() ==> (#[trigger] self.nodes@[i]).contents@.len() == 0,
                self.nodes@[id as int].bcube.spec_octant(b.center) is Some,
                self.nodes@[id as int].bcube.half_edge >= b.half_edge,
                from_root ==> top == self.root.0,
                unmoved ==> id == start && self.nodes@ == old_nodes && self.root == old(self).root,
                unmoved == fits(old_nodes[start as int].bcube, b, self.min_dist as int),
                start < old_nodes.len(),
                b.valid(),
                descend_path(self.nodes@, path, b, self.min_dist as int),
                path[0] == top,
                path.last() == id,
                forall|k: int| 0 <= k < path.len() - 1 ==> self.nodes@[path[k]].bcube.half_edge > self.nodes@[id as int].bcube.half_edge,
                h0 >= 1,
                self.nodes@.len() <= old_nodes.len() + g + d,
                forall|i: int| old_nodes.len() <= i < self.nodes@.len() ==> #[trigger] in_chain(self.nodes@, start as int, g + 1, i)
                    || in_chain(self.nodes@, id as int, d + 1, i),
                ancestor(self.nodes@, start as int, g) == top,
                ancestor(self.nodes@, id as int, d) == top,
                0 <= top < self.nodes@.len(),
                self.nodes@[top].bcube.half_edge == pow2(d) * self.nodes@[id as int].bcube.half_edge,
                self.nodes@[top].bcube.half_edge == pow2(g) * h0,
                grow ==> {
                    &&& self.nodes@ == after_ascent
                    &&& id == top
                    &&& self.nodes@[id as int].bcube.half_edge == b.half_edge
                    &&& after_ascent.len() == old_nodes.len() + kk
                    &&& top == self.root.0
                },
            ensures
                self.nodes@.len() <= old_nodes.len() + g + d,
                forall|i: int| old_nodes.len() <= i < self.nodes@.len() ==> #[trigger] in_chain(self.nodes@, start as int, g + 1, i)
                    || in_chain(self.nodes@, id as int, d + 1, i),
                ancestor(self.nodes@, start as int, g) == top,
                ancestor(self.nodes@, id as int, d) == top,
                self.nodes@[top].bcube.half_edge == pow2(d) * self.nodes@[id as int].bcube.half_edge,
                self.nodes@[top].bcube.half_edge == pow2(g) * h0,
                grow ==> {
                    &&& self.nodes@ == after_ascent
                    &&& id == top
                },
                self.nodes@[id as int].bcube.spec_octant(b.center) is Some,
                self.nodes@[id as int].bcube.half_edge >= b.half_edge,
                !descends(self.nodes@[id as int].bcube.half_edge as int, b.half_edge as int, self.min_dist as int),
                descend_path(self.nodes@, path, b, self.min_dist as int),
                path[0] == top,
                path.last() == id,
            decreases self.nodes@[id as int].bcube.half_edge,
        {
            let nb = self.nodes[id].bcube;
            assert(node_wf(self.nodes@, self.root.0 as int, id as int));
            let o = nb.octant(b.center).unwrap();
            if !(nb.half_edge > 2 * b.half_edge && nb.half_edge > self.min_dist && nb.half_edge % 2 == 0) {
                break;
            }
            let ghost before = self.nodes@;
            let child = self.get_child(id, o);
            proof {
                lemma_child_holds(nb, o, self.nodes@[child as int].bcube, b.center);
                assert forall|k: int| 0 <= k < path.len() - 1 implies #[trigger] descend_step(self.nodes@, path[k], path[k + 1], b, self.min_dist as int) by {
                    assert(descend_step(before, path[k], path[k + 1], b, self.min_dist as int));
                    assert(path[k] != id);
                }
                assert(descend_step(self.nodes@, id as int, child as int, b, self.min_dist as int));
                let ghost old_path = path;
                path = path.push(child as int);
                assert forall|k: int| 0 <= k < path.len() - 1 implies self.nodes@[path[k]].bcube.half_edge > self.nodes@[child as int].bcube.half_edge by {
                    assert(path[k] == old_path[k]);
                    if k < old_path.len() - 1 {
                        assert(descend_step(before, old_path[k], old_path[k + 1], b, self.min_dist as int));
                        assert(before[old_path[k]].bcube.half_edge > before[id as int].bcube.half_edge);
                        assert(self.nodes@[old_path[k]].bcube == before[old_path[k]].bcube);
                    }
                }
                assert forall|k: int| 0 <= k < path.len() - 1 implies #[trigger] descend_step(self.nodes@, path[k], path[k + 1], b, self.min_dist as int) by {
                    if k < path.len() - 2 {
                    }
                }
            }
            proof {
                let nn = self.nodes@;
                let rt = self.root.0 as int;
                assert forall|jj: nat| jj < g implies 0 <= #[trigger] ancestor(before, start as int, jj) < before.len()
                    && nn[ancestor(before, start as int, jj)].parent == before[ancestor(before, start as int, jj)].parent by {
                    lemma_ancestor_grows(before, rt, start as int, jj);
                }
                lemma_ancestor_prefix(before, nn, start as int, g);
                assert forall|jj: nat| jj < d implies 0 <= #[trigger] ancestor(before, id as int, jj) < before.len()
                    && nn[ancestor(before, id as int, jj)].parent == before[ancestor(before, id as int, jj)].parent by {
                    lemma_ancestor_grows(before, rt, id as int, jj);
                }
                lemma_ancestor_prefix(before, nn, id as int, d);
                assert(node_wf(nn, rt, id as int));
                assert(nn[id as int].children@[o.spec_bits()] is Some);
                assert(nn[child as int].parent == Some(NodeID(id)));
                assert(step_up(nn, child as int) == id);
                lemma_ancestor_inner(nn, child as int, d);
                let hc = nn[child as int].bcube.half_edge as int;
                assert(pow2(d + 1) == 2 * pow2(d));
                assert(pow2(d + 1) * hc == pow2(d) * (2 * hc)) by (nonlinear_arith)
                    requires
                        pow2(d + 1) == 2 * pow2(d),
                ;
                assert(nn[top].bcube == before[top].bcube);
                assert forall|i: int| old_nodes.len() <= i < nn.len() implies #[trigger] in_chain(nn, start as int, g + 1, i)
                    || in_chain(nn, child as int, d + 2, i) by {
                    if i < before.len() {
                        if in_chain(before, start as int, g + 1, i) {
                            let jj = choose|jj: nat| jj < g + 1 && #[trigger] ancestor(before, start as int, jj) == i;
                            assert(ancestor(nn, start as int, jj) == i);
                        } else {
                            assert(in_chain(before, id as int, d + 1, i));
                            let jj = choose|jj: nat| jj < d + 1 && #[trigger] ancestor(before, id as int, jj) == i;
                            assert(ancestor(nn, id as int, jj) == i);
                            lemma_ancestor_inner(nn, child as int, jj);
                            assert(ancestor(nn, child as int, jj + 1) == i);
                        }
                    } else {
                        assert(i == child);
                        assert(ancestor(nn, child as int, 0) == i);
                    }
                }
                d = d + 1;
            }
            id = child;
        }
        proof {
            assert(search_span(old_nodes.len() as int, self.nodes@, start as int, h0, id as int, g, d));
            lemma_descend_path(self.nodes@, path, b, self.min_dist as int);
            assert forall|k: nat|
                start == old(self).root.0 && old_nodes[start as int].bcube.spec_octant(b.center) is Some
                    && b.half_edge == #[trigger] pow2(k) * h0 implies {
                    &&& self.nodes@.len() == old_nodes.len() + k
                    &&& self.nodes@[self.root.0 as int].bcube.half_edge == b.half_edge
                    &&& id == self.root.0
                    &&& ancestor(self.nodes@, start as int, k) == self.root.0
                    &&& forall|jj: nat| jj <= k ==> #[trigger] self.nodes@[ancestor(self.nodes@, start as int, jj)].bcube.half_edge == pow2(jj) * h0
                } by {
                assert(grow);
                lemma_pow2_order(k, kk, h0);
            }
        }
        id
    }

    // Make every node listed in `children` name `id` as its parent.
    fn repoint_parents(&mut self, children: &[Option<NodeID>; 8], id: usize)
        requires
            old(self).nodes@.len() <= usize::MAX,
            forall|k: int| 0 <= k < 8 && (#[trigger] children@[k]) is Some ==> 0 <= slot_index(children@[k]) < old(self).nodes@.len(),
        ensures
            final(self).nodes@.len() == old(self).nodes@.len(),
            final(self).entries@ == old(self).entries@,
            final(self).root == old(self).root,
            final(self).min_dist == old(self).min_dist,
            final(self).next_tag == old(self).next_tag,
            forall|j: int|
                0 <= j < old(self).nodes@.len() ==> {
                    &&& (#[trigger] final(self).nodes@[j]).bcube == old(self).nodes@[j].bcube
                    &&& final(self).nodes@[j].octant == old(self).nodes@[j].octant
                    &&& final(self).nodes@[j].contents == old(self).nodes@[j].contents
                    &&& final(self).nodes@[j].tag == old(self).nodes@[j].tag
                    &&& final(self).nodes@[j].children == old(self).nodes@[j].children
                    &&& final(self).nodes@[j].parent == if exists|k: int| 0 <= k < 8 && children@[k] == Some(NodeID(j as usize)) {
                        Some(NodeID(id))
                    } else {
                        old(self).nodes@[j].parent
                    }
                },
    {
        let ghost start = self.nodes@;
        let mut k: usize = 0;
        while k < 8
            invariant
                k <= 8,
                start.len() <= usize::MAX,
                self.nodes@.len() == start.len(),
                self.entries@ == old(self).entries@,
                self.root == old(self).root,
                self.min_dist == old(self).min_dist,
                self.next_tag == old(self).next_tag,
                forall|kk: int| 0 <= kk < 8 && (#[trigger] children@[kk]) is Some ==> 0 <= slot_index(children@[kk]) < start.len(),
                forall|j: int|
                    0 <= j < start.len() ==> {
                        &&& (#[trigger] self.nodes@[j]).bcube == start[j].bcube
                        &&& self.nodes@[j].octant == start[j].octant
                        &&& self.nodes@[j].contents == start[j].contents
                        &&& self.nodes@[j].tag == start[j].tag
                        &&& self.nodes@[j].children == start[j].children
                        &&& self.nodes@[j].parent == if exists|kk: int| 0 <= kk < k && children@[kk] == Some(NodeID(j as usize)) {
                            Some(NodeID(id))
                        } else {
                            start[j].parent
                        }
                    },
            decreases 8 - k,
        {
            let ghost before = self.nodes@;
            if let Some(c) = children[k] {
                assert(children@[k as int] is Some);
                self.nodes[c.0].parent = Some(NodeID(id));
            }
            k += 1;
            assert forall|j: int| 0 <= j < start.len() implies (#[trigger] self.nodes@[j]).parent == if exists|kk: int| 0 <= kk < k && children@[kk] == Some(NodeID(j as usize)) {
                Some(NodeID(id))
            } else {
                start[j].parent
            } by {
                if children@[k - 1] == Some(NodeID(j as usize)) {
                } else if exists|kk: int| 0 <= kk < k && children@[kk] == Some(NodeID(j as usize)) {
                    let kk = choose|kk: int| 0 <= kk < k && children@[kk] == Some(NodeID(j as usize));
                    assert(kk < k - 1);
                } else {
                    assert(self.nodes@[j].parent == before[j].parent);
                }
            }
        }
    }

    // Make every entry listed in `contents` name `id` as its node.
    fn repoint_entries(&mut self, contents: &Vec<EntryID>, id: usize)
        requires
            old(self).entries@.len() <= u32::MAX,
            forall|t: int| 0 <= t < contents@.len() ==> (#[trigger] contents@[t] as int) < old(self).entries@.len(),
        ensures
            final(self).nodes@ == old(self).nodes@,
            final(self).root == old(self).root,
            final(self).min_dist == old(self).min_dist,
            final(self).next_tag == old(self).next_tag,
            final(self).entries@.len() == old(self).entries@.len(),
            forall|e: int|
                0 <= e < old(self).entries@.len() ==> {
                    &&& (#[trigger] final(self).entries@[e]).bcube == old(self).entries@[e].bcube
                    &&& final(self).entries@[e].val == old(self).entries@[e].val
                    &&& final(self).entries@[e].node == if contents@.contains(e as u32) {
                        NodeID(id)
                    } else {
                        old(self).entries@[e].node
                    }
                },
    {
        let ghost start = self.entries@;
        let mut i: usize = 0;
        while i < contents.len()
            invariant
                i <= contents@.len(),
                start.len() <= u32::MAX,
                forall|t: int| 0 <= t < contents@.len() ==> (#[trigger] contents@[t] as int) < start.len(),
                self.nodes@ == old(self).nodes@,
                self.root == old(self).root,
                self.min_dist == old(self).min_dist,
                self.next_tag == old(self).next_tag,
                self.entries@.len() == start.len(),
                forall|e: int|
                    0 <= e < start.len() ==> {
                        &&& (#[trigger] self.entries@[e]).bcube == start[e].bcube
                        &&& self.entries@[e].val == start[e].val
                        &&& self.entries@[e].node == if contents@.subrange(0, i as int).contains(e as u32) {
                            NodeID(id)
                        } else {
                            start[e].node
                        }
                    },
            decreases contents@.len() - i,
        {
            let ghost before = self.entries@;
            let e = contents[i];
            assert(contents@[i as int] == e);
            self.entries[e as usize].node = NodeID(id);
            i += 1;
            assert forall|e2: int| 0 <= e2 < start.len() implies (#[trigger] self.entries@[e2]).node == if contents@.subrange(0, i as int).contains(e2 as u32) {
                NodeID(id)
            } else {
                start[e2].node
            } by {
                assert(contents@.subrange(0, i as int) == contents@.subrange(0, i - 1).push(e));
                let pre = contents@.subrange(0, i - 1);
                let post = contents@.subrange(0, i as int);
                if e2 != e as int {
                    assert(e2 as u32 != e);
                    assert(self.entries@[e2] == before[e2]);
                    if post.contains(e2 as u32) {
                        let t = choose|t: int| 0 <= t < post.len() && post[t] == e2 as u32;
                        assert(t != i - 1);
                        assert(pre[t] == e2 as u32);
                    }
                    if pre.contains(e2 as u32) {
                        let t = choose|t: int| 0 <= t < pre.len() && pre[t] == e2 as u32;
                        assert(post[t] == e2 as u32);
                    }
                } else {
                    assert(post[i - 1] == e2 as u32);
                }
            }
        }
        assert(contents@.subrange(0, contents@.len() as int) == contents@);
    }

    // Free node `id` if it is not the root and holds no entries and no
    // children, then do the same for its parent. Returns the node where this
    // stopped: `k` levels above `id`, with exactly `id` and its next `k - 1`
    // ancestors removed (`pruned_chain`), and nothing changed when `id` is not
    // prunable.
    #[verifier::spinoff_prover]
    #[verifier::rlimit(100)]
    fn maybe_free(&mut self, id: usize) -> (r: usize)
        requires
            old(self).wf(),
            id < old(self).spec_nodes().len(),
        ensures
            final(self).wf(),
            final(self).spec_min_dist() == old(self).spec_min_dist(),
            final(self).spec_entries().len() == old(self).spec_entries().len(),
            forall|e: int|
                0 <= e < old(self).spec_entries().len() ==> {
                    &&& (#[trigger] final(self).spec_entries()[e]).bcube == old(self).spec_entries()[e].bcube
                    &&& final(self).spec_entries()[e].val == old(self).spec_entries()[e].val
                    &&& final(self).spec_nodes()[final(self).spec_entries()[e].node.0 as int].bcube
                        == old(self).spec_nodes()[old(self).spec_entries()[e].node.0 as int].bcube
                },
            final(self).spec_nodes()[final(self).spec_root()].bcube == old(self).spec_nodes()[old(self).spec_root()].bcube,
            final(self).spec_nodes()[final(self).spec_root()].tag == old(self).spec_nodes()[old(self).spec_root()].tag,
            r < final(self).spec_nodes().len(),
            !prunable(final(self).spec_nodes()[r as int]),
            exists|k: nat| {
                &&& final(self).spec_nodes().len() + k == old(self).spec_nodes().len()
                &&& #[trigger] pow2(k) * old(self).spec_nodes()[id as int].bcube.half_edge == final(self).spec_nodes()[r as int].bcube.half_edge
                &&& (k == 0 ==> final(self).spec_nodes() == old(self).spec_nodes() && r == id)
            },
            !prunable(old(self).spec_nodes()[id as int]) ==> final(self).spec_nodes() == old(self).spec_nodes() && r == id,
            exists|k: nat| #[trigger] pruned_chain(old(self).spec_nodes(), final(self).spec_nodes(), id as int, k, r as int),
            forall|i: int|
                0 <= i < final(self).spec_nodes().len() ==> exists|j: int|
                    0 <= j < old(self).spec_nodes().len() && (#[trigger] final(self).spec_nodes()[i]).tag == (#[trigger] old(self).spec_nodes()[j]).tag,
            forall|k: nat, i: int|
                #![trigger final(self).spec_nodes()[i], ancestor(old(self).spec_nodes(), id as int, k)]
                0 <= i < final(self).spec_nodes().len() && final(self).spec_nodes()[i].tag == old(self).spec_nodes()[ancestor(old(self).spec_nodes(), id as int, k)].tag
                    ==> !prunable(final(self).spec_nodes()[i]),
        decreases 2 * NODE_LIMIT - old(self).spec_nodes()[id as int].bcube.half_edge,
    {
        let ghost old_nodes = self.nodes@;
        let ghost old_entries = self.entries@;
        assert(node_wf(old_nodes, self.root.0 as int, id as int));
        let n = &self.nodes[id];
        let childless = n.children[0].is_none() && n.children[1].is_none() && n.children[2].is_none()
            && n.children[3].is_none() && n.children[4].is_none() && n.children[5].is_none()
            && n.children[6].is_none() && n.children[7].is_none();
        if n.parent.is_some() && n.contents.len() == 0 && childless {
            let p = n.parent.unwrap();
            {
                assert(node_wf(old_nodes, self.root.0 as int, p.0 as int));
                let last = self.nodes.len() - 1;
                self.free_node(id);
                let up = if p.0 == last {
                    id
                } else {
                    p.0
                };
                assert(self.nodes@[up as int].bcube == old_nodes[p.0 as int].bcube);
                let ghost mid_nodes = self.nodes@;
                let ghost mid_entries = self.entries@;
                let r = self.maybe_free(up);
                proof {
                    let k = choose|k: nat| {
                        &&& self.nodes@.len() + k == mid_nodes.len()
                        &&& #[trigger] pow2(k) * mid_nodes[up as int].bcube.half_edge == self.nodes@[r as int].bcube.half_edge
                        &&& (k == 0 ==> self.nodes@ == mid_nodes && r == up)
                    };
                    assert(pow2(k + 1) == 2 * pow2(k));
                    assert(pow2(k + 1) * old_nodes[id as int].bcube.half_edge == self.nodes@[r as int].bcube.half_edge) by (nonlinear_arith)
                        requires
                            pow2(k + 1) == 2 * pow2(k),
                            pow2(k) * mid_nodes[up as int].bcube.half_edge == self.nodes@[r as int].bcube.half_edge,
                            mid_nodes[up as int].bcube.half_edge == 2 * old_nodes[id as int].bcube.half_edge,
                    ;
                    assert forall|e: int| 0 <= e < old_entries.len() implies
                        self.nodes@[self.entries@[e].node.0 as int].bcube == old_nodes[old_entries[e].node.0 as int].bcube by {
                        assert(entry_wf(old_nodes, old_entries, self.min_dist as int, e));
                        let m = old_entries[e].node.0 as int;
                        assert(old_nodes[m].contents@.contains(e as u32));
                        assert(m != id);
                        assert(mid_entries[e].node.0 as int == moved_to(id as int, last as int, m));
                        assert(mid_nodes[moved_to(id as int, last as int, m)].bcube == old_nodes[m].bcube);
                    }
                    assert(mid_nodes[moved_to(id as int, last as int, old(self).root.0 as int)].bcube == old_nodes[old(self).root.0 as int].bcube);
                    assert(mid_nodes[moved_to(id as int, last as int, old(self).root.0 as int)].tag == old_nodes[old(self).root.0 as int].tag);
                    assert(self.nodes@.len() + (k + 1) as nat == old_nodes.len());
                    lemma_prune_step(old_nodes, mid_nodes, self.nodes@, old(self).root.0 as int, id as int, p.0 as int, old(self).next_tag@);
                    let k2 = choose|k2: nat| #[trigger] pruned_chain(mid_nodes, self.nodes@, up as int, k2, r as int);
                    lemma_chain_step(old_nodes, mid_nodes, self.nodes@, old(self).root.0 as int, id as int, p.0 as int, k2, r as int, old(self).next_tag@);
                    assert(pruned_chain(old_nodes, self.nodes@, id as int, k2 + 1, r as int));
                }
                return r;
            }
        }
        proof {
            assert(pow2(0) * old_nodes[id as int].bcube.half_edge == old_nodes[id as int].bcube.half_edge);
            assert(self.nodes@.len() + 0nat == old_nodes.len());
            lemma_prune_none(old_nodes, old(self).root.0 as int, id as int, old(self).next_tag@);
            lemma_chain_none(old_nodes, id as int);
        }
        id
    }

    // Free the childless, empty, non-root node `id`: unlink it from its parent,
    // move the last node of the arena into its slot, and repoint every
    // reference to the moved node.
    fn free_node(&mut self, id: usize)
        requires
            old(self).wf(),
            id < old(self).spec_nodes().len(),
            id != old(self).spec_root(),
            old(self).spec_nodes()[id as int].contents@.len() == 0,
            !has_child(old(self).spec_nodes()[id as int]),
        ensures
            final(self).wf(),
            removed_by_swap(old(self).spec_nodes(), final(self).spec_nodes(), id as int),
            final(self).spec_root() == moved_to(id as int, old(self).spec_nodes().len() - 1, old(self).spec_root()),
            final(self).spec_min_dist() == old(self).spec_min_dist(),
            final(self).spec_entries().len() == old(self).spec_entries().len(),
            forall|e: int|
                0 <= e < old(self).spec_entries().len() ==> {
                    &&& (#[trigger] final(self).spec_entries()[e]).bcube == old(self).spec_entries()[e].bcube
                    &&& final(self).spec_entries()[e].val == old(self).spec_entries()[e].val
                    &&& final(self).spec_entries()[e].node == NodeID(
                        moved_to(id as int, old(self).spec_nodes().len() - 1, old(self).spec_entries()[e].node.0 as int) as usize,
                    )
                },
    {
        if id == self.nodes.len() - 1 {
            self.free_last_node(id);
        } else {
            self.free_inner_node(id);
        }
    }

    // Unlink `id` from its parent's child slot.
    fn unlink(&mut self, id: usize) -> (r: (usize, usize))
        requires
            old(self).wf(),
            id < old(self).spec_nodes().len(),
            id != old(self).spec_root(),
        ensures
            final(self).entries@ == old(self).entries@,
            final(self).root == old(self).root,
            final(self).min_dist == old(self).min_dist,
            final(self).next_tag == old(self).next_tag,
            r.0 < old(self).nodes@.len(),
            r.1 < 8,
            old(self).nodes@[id as int].parent == Some(NodeID(r.0)),
            old(self).nodes@[id as int].octant.spec_bits() == r.1,
            slot_cleared(old(self).nodes@, final(self).nodes@, r.0 as int, r.1 as int),
    {
        assert(node_wf(self.nodes@, self.root.0 as int, id as int));
        let parent = self.nodes[id].parent.unwrap().0;
        let slot = self.nodes[id].octant.bits() as usize;
        self.nodes[parent].children[slot] = None;
        (parent, slot)
    }

    #[verifier::spinoff_prover]
    fn free_last_node(&mut self, id: usize)
        requires
            id == old(self).spec_nodes().len() - 1,
            old(self).wf(),
            id < old(self).spec_nodes().len(),
            id != old(self).spec_root(),
            old(self).spec_nodes()[id as int].contents@.len() == 0,
            !has_child(old(self).spec_nodes()[id as int]),
        ensures
            final(self).wf(),
            removed_by_swap(old(self).spec_nodes(), final(self).spec_nodes(), id as int),
            final(self).spec_root() == moved_to(id as int, old(self).spec_nodes().len() - 1, old(self).spec_root()),
            final(self).spec_min_dist() == old(self).spec_min_dist(),
            final(self).spec_entries().len() == old(self).spec_entries().len(),
            forall|e: int|
                0 <= e < old(self).spec_entries().len() ==> {
                    &&& (#[trigger] final(self).spec_entries()[e]).bcube == old(self).spec_entries()[e].bcube
                    &&& final(self).spec_entries()[e].val == old(self).spec_entries()[e].val
                    &&& final(self).spec_entries()[e].node == NodeID(
                        moved_to(id as int, old(self).spec_nodes().len() - 1, old(self).spec_entries()[e].node.0 as int) as usize,
                    )
                },
    {
        let ghost old_nodes = self.nodes@;
        let ghost old_entries = self.entries@;
        let ghost root = self.root.0 as int;
        let ghost min = self.min_dist as int;
        let last = self.nodes.len() - 1;
        let (parent, slot) = self.unlink(id);
        let ghost s1 = self.nodes@;
        self.nodes.pop();
        proof {
            assert forall|j: int| 0 <= j < self.nodes@.len() implies #[trigger] self.nodes@[j] == s1[j] by {}
            lemma_pop_result(old_nodes, s1, self.nodes@, root, id as int, parent as int, slot as int);
            lemma_node_removed(old_nodes, self.nodes@, root, id as int);
            lemma_tags_removed(old_nodes, self.nodes@, id as int, self.next_tag@);
            assert forall|e: int| 0 <= e < self.entries@.len() implies
                (#[trigger] self.entries@[e]).node == NodeID(moved_to(id as int, last as int, old_entries[e].node.0 as int) as usize) by {
                assert(entry_wf(old_nodes, old_entries, min, e));
                assert(old_nodes[old_entries[e].node.0 as int].contents@.contains(e as u32));
            }
            lemma_entries_removed(old_nodes, self.nodes@, old_entries, self.entries@, min, id as int);
        }
    }

    #[verifier::spinoff_prover]
    #[verifier::rlimit(100)]
    fn free_inner_node(&mut self, id: usize)
        requires
            id < old(self).spec_nodes().len() - 1,
            old(self).wf(),
            id < old(self).spec_nodes().len(),
            id != old(self).spec_root(),
            old(self).spec_nodes()[id as int].contents@.len() == 0,
            !has_child(old(self).spec_nodes()[id as int]),
        ensures
            final(self).wf(),
            removed_by_swap(old(self).spec_nodes(), final(self).spec_nodes(), id as int),
            final(self).spec_root() == moved_to(id as int, old(self).spec_nodes().len() - 1, old(self).spec_root()),
            final(self).spec_min_dist() == old(self).spec_min_dist(),
            final(self).spec_entries().len() == old(self).spec_entries().len(),
            forall|e: int|
                0 <= e < old(self).spec_entries().len() ==> {
                    &&& (#[trigger] final(self).spec_entries()[e]).bcube == old(self).spec_entries()[e].bcube
                    &&& final(self).spec_entries()[e].val == old(self).spec_entries()[e].val
                    &&& final(self).spec_entries()[e].node == NodeID(
                        moved_to(id as int, old(self).spec_nodes().len() - 1, old(self).spec_entries()[e].node.0 as int) as usize,
                    )
                },
    {
        let ghost old_nodes = self.nodes@;
        let ghost old_entries = self.entries@;
        let ghost root = self.root.0 as int;
        let ghost min = self.min_dist as int;
        let last = self.nodes.len() - 1;
        assert(node_wf(old_nodes, root, last as int));
        let (parent, slot) = self.unlink(id);
        let ghost s1 = self.nodes@;
        let moved = self.nodes.pop().unwrap();
        assert(moved == s1[last as int]);
        if let Some(qn) = moved.parent {
            assert(node_wf(old_nodes, root, qn.0 as int));
            self.nodes[qn.0].children[moved.octant.bits() as usize] = Some(NodeID(id));
        }
        proof {
            lemma_moved_children(old_nodes, s1, root, id as int, parent as int, slot as int);
        }
        self.repoint_parents(&moved.children, id);
        assert(contents_wf(old_nodes, old_entries, last as int));
        assert forall|t: int| 0 <= t < moved.contents@.len() implies (#[trigger] moved.contents@[t] as int) < self.entries@.len() by {
            assert(old_nodes[last as int].contents@[t] == moved.contents@[t]);
        }
        self.repoint_entries(&moved.contents, id);
        if self.root.0 == last {
            self.root = NodeID(id);
        }
        self.nodes[id] = moved;
        proof {
            lemma_swap_result(old_nodes, s1, self.nodes@, root, id as int, parent as int, slot as int);
            lemma_node_removed(old_nodes, self.nodes@, root, id as int);
            lemma_tags_removed(old_nodes, self.nodes@, id as int, self.next_tag@);
            assert forall|e: int| 0 <= e < self.entries@.len() implies
                (#[trigger] self.entries@[e]).node == NodeID(moved_to(id as int, last as int, old_entries[e].node.0 as int) as usize) by {
                assert(entry_wf(old_nodes, old_entries, min, e));
                let n = old_entries[e].node.0 as int;
                assert(old_nodes[n].contents@.contains(e as u32));
                if n != last {
                    if moved.contents@.contains(e as u32) {
                        let t = choose|t: int| 0 <= t < moved.contents@.len() && moved.contents@[t] == e as u32;
                        assert(old_nodes[last as int].contents@[t] == e as u32);
                    }
                }
            }
            lemma_entries_removed(old_nodes, self.nodes@, old_entries, self.entries@, min, id as int);
        }
    }

    // Create a parent of the root `id` which extends toward `v`; it becomes the new root.
    fn make_parent_toward(&mut self, id: usize, v: Vec3) -> (r: usize)
        requires
            old(self).wf(),
            id == old(self).spec_root(),
            in_world(v),
            old(self).spec_nodes()[id as int].bcube.half_edge < 4 * WORLD_LIMIT,
        ensures
            final(self).wf(),
            final(self).spec_entries() == old(self).spec_entries(),
            final(self).spec_min_dist() == old(self).spec_min_dist(),
            r == old(self).spec_nodes().len(),
            final(self).spec_root() == r,
            final(self).spec_nodes().len() == old(self).spec_nodes().len() + 1,
            placed_in(
                old(self).spec_nodes()[id as int].bcube,
                octant_toward(old(self).spec_nodes()[id as int].bcube.center, v),
                final(self).spec_nodes()[r as int].bcube,
            ),
            forall|i: int|
                0 <= i < old(self).spec_nodes().len() ==> {
                    &&& (#[trigger] final(self).spec_nodes()[i]).bcube == old(self).spec_nodes()[i].bcube
                    &&& final(self).spec_nodes()[i].contents == old(self).spec_nodes()[i].contents
                    &&& final(self).spec_nodes()[i].tag == old(self).spec_nodes()[i].tag
                    &&& (i != id ==> final(self).spec_nodes()[i].parent == old(self).spec_nodes()[i].parent)
                },
            final(self).spec_nodes()[r as int].contents@.len() == 0,
            final(self).spec_nodes()[r as int].tag@ == old(self).spec_next_tag(),
            final(self).spec_nodes()[id as int].parent == Some(NodeID(r)),
            final(self).spec_next_tag() == old(self).spec_next_tag() + 1,
            forall|i: int|
                0 <= i < old(self).spec_nodes().len() ==> (#[trigger] final(self).spec_nodes()[i]).children
                    == old(self).spec_nodes()[i].children,
    {
        let ghost old_nodes = self.nodes@;
        assert(node_wf(old_nodes, id as int, id as int));
        let ob = self.nodes[id].bcube;
        let diff = v.minus(ob.center);
        let octant = Octant { x: diff.x < 0, y: diff.y < 0, z: diff.z < 0 };
        let center = ob.center.plus(octant.as_vector().scaled(-ob.half_edge));
        let node = self.nodes.len();
        let mut children: [Option<NodeID>; 8] = [None, None, None, None, None, None, None, None];
        children[octant.bits() as usize] = Some(NodeID(id));
        self.nodes.push(
            Node {
                bcube: BoundingCube { center, half_edge: ob.half_edge * 2 },
                octant: Octant { x: false, y: false, z: false },
                parent: None,
                children,
                contents: Vec::new(),
                tag: Ghost(self.next_tag@),
            },
        );
        self.nodes[id].parent = Some(NodeID(node));
        self.nodes[id].octant = octant;
        self.root = NodeID(node);
        let ghost next = self.next_tag@;
        self.next_tag = Ghost(next + 1);
        proof {
            lemma_tags_kept(old_nodes, self.nodes@, next, next + 1);
            lemma_grow_bounds(ob, v, self.nodes@[node as int].bcube);
            lemma_parent_added(old_nodes, self.nodes@, id as int, octant);
            lemma_entries_kept(old_nodes, self.nodes@, self.entries@, self.min_dist as int);
        }
        node
    }

    // Get the child of node `id` in `octant`, creating it if it does not exist yet.
    fn get_child(&mut self, id: usize, octant: Octant) -> (r: usize)
        requires
            old(self).wf(),
            id < old(self).spec_nodes().len(),
            old(self).spec_nodes()[id as int].bcube.half_edge % 2 == 0,
            old(self).spec_nodes()[id as int].bcube.half_edge >= 2,
        ensures
            final(self).wf(),
            final(self).keeps_root_and_entries_of(old(self)),
            r < final(self).spec_nodes().len(),
            final(self).spec_nodes()[id as int].children@[octant.spec_bits()] == Some(NodeID(r)),
            final(self).spec_nodes()[r as int].octant == octant,
            placed_in(final(self).spec_nodes()[r as int].bcube, octant, old(self).spec_nodes()[id as int].bcube),
            old(self).spec_nodes()[id as int].children@[octant.spec_bits()] is Some ==> final(self).spec_nodes() == old(self).spec_nodes(),
            forall|i: int|
                old(self).spec_nodes().len() <= i < final(self).spec_nodes().len() ==> (#[trigger] final(self).spec_nodes()[i]).contents@.len() == 0,
            final(self).spec_next_tag() >= old(self).spec_next_tag(),
            forall|i: int|
                old(self).spec_nodes().len() <= i < final(self).spec_nodes().len() ==> (#[trigger] final(self).spec_nodes()[i]).tag@
                    >= old(self).spec_next_tag(),
            forall|i: int|
                0 <= i < old(self).spec_nodes().len() && i != id ==> (#[trigger] final(self).spec_nodes()[i]).children
                    == old(self).spec_nodes()[i].children,
            old(self).spec_nodes()[id as int].children@[octant.spec_bits()] is None ==> {
                &&& r == old(self).spec_nodes().len()
                &&& final(self).spec_nodes().len() == old(self).spec_nodes().len() + 1
            },
            forall|i: int| 0 <= i < old(self).spec_nodes().len() ==> {
                &&& (#[trigger] final(self).spec_nodes()[i]).bcube == old(self).spec_nodes()[i].bcube
                &&& final(self).spec_nodes()[i].contents == old(self).spec_nodes()[i].contents
                &&& final(self).spec_nodes()[i].parent == old(self).spec_nodes()[i].parent
                &&& final(self).spec_nodes()[i].octant == old(self).spec_nodes()[i].octant
                &&& final(self).spec_nodes()[i].tag == old(self).spec_nodes()[i].tag
                &&& forall|k: int| 0 <= k < 8 && (i != id || k != octant.spec_bits()) ==>
                    #[trigger] final(self).spec_nodes()[i].children@[k] == old(self).spec_nodes()[i].children@[k]
            },
    {
        let k = octant.bits() as usize;
        match self.nodes[id].children[k] {
            Some(c) => {
                assert(node_wf(self.nodes@, self.root.0 as int, id as int));
                assert(node_wf(self.nodes@, self.root.0 as int, c.0 as int));
                c.0
            },
            None => {
                let ghost old_nodes = self.nodes@;
                let ghost root = self.root.0 as int;
                assert(node_wf(old_nodes, root, id as int));
                let ob = self.nodes[id].bcube;
                let half = ob.half_edge / 2;
                let center = ob.center.plus(octant.as_vector().scaled(half));
                let child = self.nodes.len();
                self.nodes.push(
                    Node {
                        bcube: BoundingCube { center, half_edge: half },
                        octant,
                        parent: Some(NodeID(id)),
                        children: [None, None, None, None, None, None, None, None],
                        contents: Vec::new(),
                        tag: Ghost(self.next_tag@),
                    },
                );
                self.nodes[id].children[k] = Some(NodeID(child));
                let ghost next = self.next_tag@;
                self.next_tag = Ghost(next + 1);
                proof {
                    lemma_tags_kept(old_nodes, self.nodes@, next, next + 1);
                    lemma_child_added(old_nodes, self.nodes@, root, id as int, k as int);
                    lemma_entries_kept(old_nodes, self.nodes@, self.entries@, self.min_dist as int);
                }
                child
            },
        }
    }
}

/// The position of `ent` in `contents`.
fn position_of(contents: &Vec<EntryID>, ent: EntryID) -> (r: usize)
    requires
        contents@.contains(ent),
    ensures
        r < contents@.len(),
        contents@[r as int] == ent,
{
    let mut i: usize = 0;
    while i < contents.len()
        invariant
            i <= contents@.len(),
            contents@.contains(ent),
            forall|t: int| 0 <= t < i ==> contents@[t] != ent,
        decreases contents@.len() - i,
    {
        if contents[i] == ent {
            return i;
        }
        i += 1;
    }
    proof {
        let t = choose|t: int| 0 <= t < contents@.len() && contents@[t] == ent;
        assert(contents@[t] != ent);
    }
    0
}

impl<T> LooseOctree<T> {
    /// Insert an object into the octree. It is held by the node reached by
    /// walking down from the root toward its cube, which is created as needed.
    #[verifier::spinoff_prover]
    #[verifier::rlimit(60)]
    pub fn insert(&mut self, val: T, bcube: BoundingCube) -> (r: EntryID)
        requires
            old(self).wf(),
            bcube.valid(),
            old(self).spec_entries().len() < u32::MAX,
        ensures
            final(self).wf(),
            final(self).spec_min_dist() == old(self).spec_min_dist(),
            r == old(self).spec_entries().len(),
            final(self).spec_entries().len() == old(self).spec_entries().len() + 1,
            final(self).spec_entries()[r as int].bcube == bcube,
            final(self).spec_entries()[r as int].val == val,
            final(self).spec_entries()[r as int].node.0 == descend_from(
                final(self).spec_nodes(),
                final(self).spec_root(),
                bcube,
                final(self).spec_min_dist(),
            ),
            final(self).spec_nodes()[final(self).spec_entries()[r as int].node.0 as int].contents@.contains(r),
            fits(final(self).spec_nodes()[final(self).spec_entries()[r as int].node.0 as int].bcube, bcube, final(self).spec_min_dist()),
            forall|e: int|
                0 <= e < old(self).spec_entries().len() ==> {
                    &&& (#[trigger] final(self).spec_entries()[e]).bcube == old(self).spec_entries()[e].bcube
                    &&& final(self).spec_entries()[e].val == old(self).spec_entries()[e].val
                    &&& final(self).spec_nodes()[final(self).spec_entries()[e].node.0 as int].bcube
                        == old(self).spec_nodes()[old(self).spec_entries()[e].node.0 as int].bcube
                },
            forall|k: nat|
                old(self).spec_nodes()[old(self).spec_root()].bcube.spec_octant(bcube.center) is Some
                    && bcube.half_edge == #[trigger] pow2(k) * old(self).spec_nodes()[old(self).spec_root()].bcube.half_edge ==> {
                    &&& final(self).spec_nodes().len() == old(self).spec_nodes().len() + k
                    &&& final(self).spec_nodes()[final(self).spec_root()].bcube.half_edge == bcube.half_edge
                    &&& final(self).spec_entries()[r as int].node.0 == final(self).spec_root()
                    &&& ancestor(final(self).spec_nodes(), old(self).spec_root(), k) == final(self).spec_root()
                    &&& forall|j: nat| j <= k ==> #[trigger] final(self).spec_nodes()[ancestor(final(self).spec_nodes(), old(self).spec_root(), j)].bcube.half_edge
                        == pow2(j) * old(self).spec_nodes()[old(self).spec_root()].bcube.half_edge
                },
            exists|g: nat, d: nat| #[trigger] search_span(
                old(self).spec_nodes().len() as int,
                final(self).spec_nodes(),
                old(self).spec_root(),
                old(self).spec_nodes()[old(self).spec_root()].bcube.half_edge as int,
                final(self).spec_entries()[r as int].node.0 as int,
                g,
                d,
            ),
            final(self).spec_nodes().len() >= old(self).spec_nodes().len(),
            forall|i: int|
                0 <= i < old(self).spec_nodes().len() ==> {
                    &&& (#[trigger] final(self).spec_nodes()[i]).bcube == old(self).spec_nodes()[i].bcube
                    &&& final(self).spec_nodes()[i].tag == old(self).spec_nodes()[i].tag
                    &&& (i != old(self).spec_root() ==> final(self).spec_nodes()[i].parent == old(self).spec_nodes()[i].parent)
                    &&& final(self).spec_nodes()[i].contents@ == if i == final(self).spec_entries()[r as int].node.0 {
                        old(self).spec_nodes()[i].contents@.push(r)
                    } else {
                        old(self).spec_nodes()[i].contents@
                    }
                },
            forall|i: int|
                old(self).spec_nodes().len() <= i < final(self).spec_nodes().len() ==> (#[trigger] final(self).spec_nodes()[i]).tag@
                    >= old(self).spec_next_tag(),
            (final(self).spec_nodes()[final(self).spec_root()].tag == old(self).spec_nodes()[old(self).spec_root()].tag
                && final(self).spec_nodes()[final(self).spec_root()].bcube == old(self).spec_nodes()[old(self).spec_root()].bcube)
                || final(self).spec_nodes()[final(self).spec_root()].tag@ >= old(self).spec_next_tag(),
    {
        let ghost old_entries = self.entries@;
        let ghost old_nodes = self.nodes@;
        let ent_id = self.entries.len() as EntryID;
        let root = self.root.0;
        let node = self.get_node(root, bcube);
        let ghost mid_nodes = self.nodes@;
        let ghost mid_entries = self.entries@;
        self.entries.push(Entry { bcube, node: NodeID(node), val });
        self.nodes[node].contents.push(ent_id);
        proof {
            assert forall|i: int| 0 <= i < mid_nodes.len() && i != node implies #[trigger] self.nodes@[i] == mid_nodes[i] by {}
            lemma_contents_only(mid_nodes, self.nodes@, self.root.0 as int);
            lemma_descend_same(mid_nodes, self.nodes@, self.root.0 as int, bcube, self.min_dist as int);
            assert forall|j: nat| #[trigger] ancestor(self.nodes@, old(self).root.0 as int, j) == ancestor(mid_nodes, old(self).root.0 as int, j) by {
                lemma_ancestor_same_parents(mid_nodes, self.nodes@, old(self).root.0 as int, j);
            }
            let (g, d) = choose|g: nat, d: nat| #[trigger] search_span(old_nodes.len() as int, mid_nodes, old(self).root.0 as int,
                old_nodes[old(self).root.0 as int].bcube.half_edge as int, node as int, g, d);
            lemma_ancestor_same_parents(mid_nodes, self.nodes@, node as int, d);
            lemma_ancestor_same_parents(mid_nodes, self.nodes@, old(self).root.0 as int, g);
            lemma_ancestor_grows(mid_nodes, self.root.0 as int, node as int, d);
            assert forall|i: int| old_nodes.len() <= i < self.nodes@.len() implies #[trigger] in_chain(self.nodes@, old(self).root.0 as int, g + 1, i)
                || in_chain(self.nodes@, node as int, d + 1, i) by {
                if in_chain(mid_nodes, old(self).root.0 as int, g + 1, i) {
                    let jj = choose|jj: nat| jj < g + 1 && #[trigger] ancestor(mid_nodes, old(self).root.0 as int, jj) == i;
                    lemma_ancestor_same_parents(mid_nodes, self.nodes@, old(self).root.0 as int, jj);
                } else {
                    let jj = choose|jj: nat| jj < d + 1 && #[trigger] ancestor(mid_nodes, node as int, jj) == i;
                    lemma_ancestor_same_parents(mid_nodes, self.nodes@, node as int, jj);
                }
            }
            assert(search_span(old_nodes.len() as int, self.nodes@, old(self).root.0 as int,
                old_nodes[old(self).root.0 as int].bcube.half_edge as int, node as int, g, d));
            assert forall|j: nat| #[trigger] self.nodes@[ancestor(self.nodes@, old(self).root.0 as int, j)].bcube
                == mid_nodes[ancestor(mid_nodes, old(self).root.0 as int, j)].bcube by {
                lemma_ancestor_same_parents(mid_nodes, self.nodes@, old(self).root.0 as int, j);
                lemma_ancestor_grows(mid_nodes, self.root.0 as int, old(self).root.0 as int, j);
            }
            lemma_entry_added(mid_nodes, self.nodes@, mid_entries, self.entries@, self.min_dist as int, node as int);
            assert(self.nodes@[node as int].contents@[mid_nodes[node as int].contents@.len() as int] == ent_id);
            assert forall|e: int| 0 <= e < old_entries.len() implies
                self.nodes@[self.entries@[e].node.0 as int].bcube == old_nodes[old_entries[e].node.0 as int].bcube by {
                assert(entry_wf(old_nodes, old_entries, self.min_dist as int, e));
                assert(self.entries@[e] == old_entries[e]);
            }
        }
        ent_id
    }

    /// Move an existing entry to a new bounding cube. The search for its node
    /// starts from the node holding it; if that node changes, the entry moves
    /// and the old node, and then its ancestors, are freed while they hold
    /// nothing and have no children.
    ///
    /// When the entry moves, some number `k` of nodes from its old node upward
    /// are gone (at least the old node, when the entry was all it held and
    /// the entry left it upward), every other node is kept with its cube and
    /// what it held (plus the entry, for its new node), pruning stopped at a
    /// node `k` levels up that is kept for a reason, and no survivor of the old
    /// node's chain is left prunable. The root is the old one, or one grown
    /// during this call.
    #[verifier::spinoff_prover]
    #[verifier::rlimit(60)]
    pub fn adjust(&mut self, ent_id: EntryID, bcube: BoundingCube)
        requires
            old(self).wf(),
            (ent_id as int) < old(self).spec_entries().len(),
            bcube.valid(),
        ensures
            final(self).wf(),
            final(self).spec_min_dist() == old(self).spec_min_dist(),
            final(self).spec_entries().len() == old(self).spec_entries().len(),
            final(self).spec_entries()[ent_id as int].bcube == bcube,
            final(self).spec_entries()[ent_id as int].val == old(self).spec_entries()[ent_id as int].val,
            fits(final(self).spec_nodes()[final(self).spec_entries()[ent_id as int].node.0 as int].bcube, bcube, final(self).spec_min_dist()),
            forall|e: int|
                0 <= e < old(self).spec_entries().len() && e != ent_id ==> {
                    &&& (#[trigger] final(self).spec_entries()[e]).bcube == old(self).spec_entries()[e].bcube
                    &&& final(self).spec_entries()[e].val == old(self).spec_entries()[e].val
                    &&& final(self).spec_nodes()[final(self).spec_entries()[e].node.0 as int].bcube
                        == old(self).spec_nodes()[old(self).spec_entries()[e].node.0 as int].bcube
                },
            fits(old(self).spec_nodes()[old(self).spec_entries()[ent_id as int].node.0 as int].bcube, bcube, old(self).spec_min_dist()) ==> {
                &&& final(self).spec_nodes() == old(self).spec_nodes()
                &&& final(self).spec_root() == old(self).spec_root()
                &&& final(self).spec_entries()[ent_id as int].node == old(self).spec_entries()[ent_id as int].node
            },
            !fits(old(self).spec_nodes()[old(self).spec_entries()[ent_id as int].node.0 as int].bcube, bcube, old(self).spec_min_dist()) ==>
                forall|k: nat, i: int|
                    #![trigger final(self).spec_nodes()[i], ancestor(old(self).spec_nodes(), old(self).spec_entries()[ent_id as int].node.0 as int, k)]
                    0 <= i < final(self).spec_nodes().len() && final(self).spec_nodes()[i].tag
                        == old(self).spec_nodes()[ancestor(old(self).spec_nodes(), old(self).spec_entries()[ent_id as int].node.0 as int, k)].tag
                        ==> !prunable(final(self).spec_nodes()[i]),
            !fits(old(self).spec_nodes()[old(self).spec_entries()[ent_id as int].node.0 as int].bcube, bcube, old(self).spec_min_dist()) ==>
                exists|k: nat| {
                    &&& (emptied_by_leaving(old(self).spec_nodes()[old(self).spec_entries()[ent_id as int].node.0 as int], ent_id, bcube) ==> k >= 1)
                    &&& #[trigger] chain_gone(old(self).spec_nodes(), final(self).spec_nodes(), old(self).spec_entries()[ent_id as int].node.0 as int, k)
                    &&& others_kept(old(self).spec_nodes(), final(self).spec_nodes(), old(self).spec_entries()[ent_id as int].node.0 as int, k, ent_id)
                    &&& exists|s: int| #[trigger] stopped_at(final(self).spec_nodes(), s, k,
                        old(self).spec_nodes()[old(self).spec_entries()[ent_id as int].node.0 as int].bcube.half_edge as int)
                },
            (final(self).spec_nodes()[final(self).spec_root()].tag == old(self).spec_nodes()[old(self).spec_root()].tag
                && final(self).spec_nodes()[final(self).spec_root()].bcube == old(self).spec_nodes()[old(self).spec_root()].bcube)
                || final(self).spec_nodes()[final(self).spec_root()].tag@ >= old(self).spec_next_tag(),
    {
        let ghost old_entries = self.entries@;
        let ghost old_nodes = self.nodes@;
        let ghost min = self.min_dist as int;
        let e = ent_id as usize;
        let cur = self.entries[e].node.0;
        assert(entry_wf(old_nodes, old_entries, min, e as int));
        let new = self.get_node(cur, bcube);
        let ghost mid_nodes = self.nodes@;
        let ghost mid_entries = self.entries@;
        let ghost mid_root = self.root.0 as int;
        if new != cur {
            assert(entry_wf(mid_nodes, mid_entries, min, e as int));
            let pos = position_of(&self.nodes[cur].contents, ent_id);
            self.nodes[cur].contents.remove(pos);
            self.nodes[new].contents.push(ent_id);
            self.entries[e].node = NodeID(new);
            self.entries[e].bcube = bcube;
            proof {
                assert forall|i: int| 0 <= i < mid_nodes.len() && i != new && i != cur implies #[trigger] self.nodes@[i] == mid_nodes[i] by {}
                lemma_contents_only(mid_nodes, self.nodes@, self.root.0 as int);
                lemma_entry_moved(mid_nodes, self.nodes@, mid_entries, self.entries@, min, e as int, new as int, pos as int);
            }
            let ghost moved_nodes = self.nodes@;
            let ghost moved_entries = self.entries@;
            let stop = self.maybe_free(cur);
            proof {
                let fin = self.nodes@;
                let root0 = old(self).root.0 as int;
                let k = choose|k: nat| #[trigger] pruned_chain(moved_nodes, fin, cur as int, k, stop as int);
                assert(node_wf(old_nodes, root0, cur as int));
                if emptied_by_leaving(old_nodes[cur as int], ent_id, bcube) {
                    assert(moved_nodes[cur as int].contents@.len() == 0);
                    assert(moved_nodes[cur as int].children == old_nodes[cur as int].children);
                    assert(prunable(moved_nodes[cur as int]));
                    assert(k >= 1);
                }
                assert forall|j: nat, i: int|
                    #![trigger fin[i], ancestor(old_nodes, cur as int, j)]
                    j < k && 0 <= i < fin.len() implies fin[i].tag != old_nodes[ancestor(old_nodes, cur as int, j)].tag by {
                    lemma_ancestor_after_growth(old_nodes, mid_nodes, root0, cur as int, j);
                    lemma_ancestor_grows(old_nodes, root0, cur as int, j);
                    let a = ancestor(old_nodes, cur as int, j);
                    let k2 = choose|k2: nat| k2 <= j && a == #[trigger] ancestor(mid_nodes, cur as int, k2);
                    lemma_ancestor_same_parents(mid_nodes, moved_nodes, cur as int, k2);
                    assert(moved_nodes[a].tag == old_nodes[a].tag);
                    assert(ancestor(moved_nodes, cur as int, k2) == a);
                    assert(fin[i].tag != moved_nodes[ancestor(moved_nodes, cur as int, k2)].tag);
                }
                assert(chain_gone(old_nodes, fin, cur as int, k));
                let k3 = choose|k3: nat| {
                    &&& fin.len() + k3 == moved_nodes.len()
                    &&& #[trigger] pow2(k3) * moved_nodes[cur as int].bcube.half_edge == fin[stop as int].bcube.half_edge
                    &&& (k3 == 0 ==> fin == moved_nodes && stop == cur)
                };
                assert(k3 == k);
                assert(stopped_at(fin, stop as int, k, old_nodes[cur as int].bcube.half_edge as int));
                assert forall|x: int| 0 <= x < old_nodes.len() && x != cur && !in_chain(old_nodes, cur as int, k, x)
                    implies #[trigger] kept_as(old_nodes[x], fin, ent_id) by {
                    assert(moved_nodes[x].tag == old_nodes[x].tag && moved_nodes[x].bcube == old_nodes[x].bcube);
                    assert(moved_nodes[x].contents@ == old_nodes[x].contents@ || moved_nodes[x].contents@ == old_nodes[x].contents@.push(ent_id));
                    assert(!in_chain(moved_nodes, cur as int, k, x)) by {
                        if in_chain(moved_nodes, cur as int, k, x) {
                            let j = choose|j: nat| j < k && #[trigger] ancestor(moved_nodes, cur as int, j) == x;
                            lemma_ancestor_same_parents(mid_nodes, moved_nodes, cur as int, j);
                            lemma_old_on_chain(old_nodes, mid_nodes, root0, mid_root, cur as int, j);
                            let j2 = choose|j2: nat| j2 <= j && #[trigger] ancestor(old_nodes, cur as int, j2) == ancestor(mid_nodes, cur as int, j);
                            assert(in_chain(old_nodes, cur as int, k, x));
                        }
                    }
                    assert(survives(moved_nodes[x], fin));
                }
                assert(moved_nodes[self.root.0 as int].tag == mid_nodes[self.root.0 as int].tag);
                assert(moved_nodes[self.root.0 as int].bcube == mid_nodes[self.root.0 as int].bcube);
                assert forall|k: nat, i: int|
                    #![trigger fin[i], ancestor(old_nodes, cur as int, k)]
                    0 <= i < fin.len() && fin[i].tag == old_nodes[ancestor(old_nodes, cur as int, k)].tag
                    implies !prunable(fin[i]) by {
                    lemma_ancestor_after_growth(old_nodes, mid_nodes, root0, cur as int, k);
                    lemma_ancestor_grows(old_nodes, root0, cur as int, k);
                    let a = ancestor(old_nodes, cur as int, k);
                    let k2 = choose|k2: nat| a == #[trigger] ancestor(mid_nodes, cur as int, k2);
                    lemma_ancestor_same_parents(mid_nodes, moved_nodes, cur as int, k2);
                    assert(moved_nodes[a].tag == old_nodes[a].tag);
                    assert(ancestor(moved_nodes, cur as int, k2) == a);
                }
                assert forall|x: int| 0 <= x < old_entries.len() && x != e implies
                    self.nodes@[self.entries@[x].node.0 as int].bcube == old_nodes[old_entries[x].node.0 as int].bcube by {
                    assert(entry_wf(old_nodes, old_entries, min, x));
                    assert(moved_entries[x] == mid_entries[x]);
                }
            }
        } else {
            self.entries[e].bcube = bcube;
            proof {
                lemma_entry_rebounded(mid_nodes, mid_entries, self.entries@, min, e as int);
                assert forall|x: int| 0 <= x < old_entries.len() && x != e implies
                    self.nodes@[self.entries@[x].node.0 as int].bcube == old_nodes[old_entries[x].node.0 as int].bcube by {
                    assert(entry_wf(old_nodes, old_entries, min, x));
                    assert(self.entries@[x] == old_entries[x]);
                }
            }
        }
    }
}

impl<T> LooseOctree<T> {
    /// The root node.
    pub fn root(&self) -> (r: NodeID)
        ensures
            r.0 == self.spec_root(),
    {
        self.root
    }

    /// The number of nodes in the arena.
    pub fn node_count(&self) -> (r: usize)
        ensures
            r == self.spec_nodes().len(),
    {
        self.nodes.len()
    }

    /// The number of entries inserted so far.
    pub fn entry_count(&self) -> (r: usize)
        ensures
            r == self.spec_entries().len(),
    {
        self.entries.len()
    }

    /// The half-edge that a node must exceed to be split.
    pub fn min_dist(&self) -> (r: i64)
        ensures
            r == self.spec_min_dist(),
    {
        self.min_dist
    }

    /// The cube of node `id`.
    pub fn node_bcube(&self, id: NodeID) -> (r: BoundingCube)
        requires
            id.0 < self.spec_nodes().len(),
        ensures
            r == self.spec_nodes()[id.0 as int].bcube,
    {
        self.nodes[id.0].bcube
    }

    /// The parent of node `id`; `None` for the root.
    pub fn node_parent(&self, id: NodeID) -> (r: Option<NodeID>)
        requires
            id.0 < self.spec_nodes().len(),
        ensures
            r == self.spec_nodes()[id.0 as int].parent,
    {
        self.nodes[id.0].parent
    }

    /// Which octant of its parent node `id` occupies (meaningless for the root).
    pub fn node_octant(&self, id: NodeID) -> (r: Octant)
        requires
            id.0 < self.spec_nodes().len(),
        ensures
            r == self.spec_nodes()[id.0 as int].octant,
    {
        self.nodes[id.0].octant
    }

    /// The child of node `id` in `octant`, if there is one.
    pub fn node_child(&self, id: NodeID, octant: Octant) -> (r: Option<NodeID>)
        requires
            id.0 < self.spec_nodes().len(),
        ensures
            r == self.spec_nodes()[id.0 as int].children@[octant.spec_bits()],
    {
        self.nodes[id.0].children[octant.bits() as usize]
    }

    /// The entries held directly by node `id`.
    pub fn node_contents(&self, id: NodeID) -> (r: &Vec<EntryID>)
        requires
            id.0 < self.spec_nodes().len(),
        ensures
            r@ == self.spec_nodes()[id.0 as int].contents@,
    {
        &self.nodes[id.0].contents
    }

    /// The node holding entry `ent`.
    pub fn entry_node(&self, ent: EntryID) -> (r: NodeID)
        requires
            (ent as int) < self.spec_entries().len(),
        ensures
            r == self.spec_entries()[ent as int].node,
    {
        self.entries[ent as usize].node
    }

    /// The bounding cube of entry `ent`.
    pub fn entry_bcube(&self, ent: EntryID) -> (r: BoundingCube)
        requires
            (ent as int) < self.spec_entries().len(),
        ensures
            r == self.spec_entries()[ent as int].bcube,
    {
        self.entries[ent as usize].bcube
    }

    /// The payload of entry `ent`.
    pub fn entry_val(&self, ent: EntryID) -> (r: &T)
        requires
            (ent as int) < self.spec_entries().len(),
        ensures
            *r == self.spec_entries()[ent as int].val,
    {
        &self.entries[ent as usize].val
    }
}

/// Moving an entry without resizing it, to a centre still within the cube of
/// the node holding it, leaves that node fit to hold it: `adjust` then
/// changes no node and keeps the entry where it is.
pub proof fn lemma_small_move_stays<T>(t: &LooseOctree<T>, ent: EntryID, b: BoundingCube)
    requires
        t.wf(),
        (ent as int) < t.spec_entries().len(),
        b.half_edge == t.spec_entries()[ent as int].bcube.half_edge,
        t.spec_nodes()[t.spec_entries()[ent as int].node.0 as int].bcube.spec_octant(b.center) is Some,
    ensures
        fits(t.spec_nodes()[t.spec_entries()[ent as int].node.0 as int].bcube, b, t.spec_min_dist()),
{
    assert(entry_wf(t.spec_nodes(), t.spec_entries(), t.spec_min_dist(), ent as int));
}

/// In a well-formed tree, which every operation preserves (node removal
/// included), each node's references agree: its parent's child slot for its
/// octant names it, each of its children names it as parent, and each entry
/// it holds names it as that entry's node.
pub proof fn lemma_links_agree<T>(t: &LooseOctree<T>, i: int)
    requires
        t.wf(),
        0 <= i < t.spec_nodes().len(),
    ensures
        t.spec_nodes()[i].parent is Some ==> t.spec_nodes()[slot_index(t.spec_nodes()[i].parent)].children@[t.spec_nodes()[i].octant.spec_bits()]
            == Some(NodeID(i as usize)),
        forall|k: int|
            0 <= k < 8 && (#[trigger] t.spec_nodes()[i].children@[k]) is Some ==> t.spec_nodes()[slot_index(t.spec_nodes()[i].children@[k])].parent
                == Some(NodeID(i as usize)),
        forall|k: int|
            0 <= k < t.spec_nodes()[i].contents@.len() ==> t.spec_entries()[(#[trigger] t.spec_nodes()[i].contents@[k]) as int].node.0 == i,
{
    assert(node_wf(t.spec_nodes(), t.spec_root(), i));
    assert(contents_wf(t.spec_nodes(), t.spec_entries(), i));
}

} // verus!
