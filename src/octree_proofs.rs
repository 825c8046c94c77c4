//! The lemmas behind the loose octree's proofs: how each change to the node
//! arena (a node added below or above, a node removed by swapping, contents
//! changed) keeps the tree consistent, and facts about the walks up and down it.
use vstd::prelude::*;

use crate::geometry::{axis_side, axis_sign, BoundingCube, Octant, Vec3, WORLD_LIMIT};
use crate::octree::{
    in_chain, pruned_chain, survives, tag_from,
    Entry, Node, NodeID, ancestor, contents_wf, descend_from, descend_path, descend_step,
    entries_wf, entry_wf, fits, has_child, in_bounds, in_world, moved_from, moved_ref,
    moved_slot, moved_to, node_wf, nodes_wf, octant_toward, placed_in, pow2, prunable,
    removed_by_swap, root_bounds, slot_cleared, slot_index, step_up, tags_wf,
};

verus! {

/// Nodes keep their cube and contents, and nodes added hold nothing: the
/// entries stay consistent.
pub(crate) proof fn lemma_entries_kept<T>(old: Seq<Node>, nn: Seq<Node>, entries: Seq<Entry<T>>, min: int)
    requires
        entries_wf(old, entries, min),
        nn.len() >= old.len(),
        forall|i: int|
            0 <= i < old.len() ==> (#[trigger] nn[i]).bcube == old[i].bcube && nn[i].contents
                == old[i].contents,
        forall|i: int| old.len() <= i < nn.len() ==> (#[trigger] nn[i]).contents@.len() == 0,
    ensures
        entries_wf(nn, entries, min),
{
    assert forall|i: int| 0 <= i < nn.len() implies #[trigger] contents_wf(nn, entries, i) by {
        if i < old.len() {
            assert(contents_wf(old, entries, i));
        }
    }
    assert forall|e: int| 0 <= e < entries.len() implies #[trigger] entry_wf(nn, entries, min, e) by {
        assert(entry_wf(old, entries, min, e));
    }
}

/// A new leaf appended at the end of the arena and linked into the empty
/// slot `k` of node `id` keeps the arena a tree.
#[verifier::spinoff_prover]
#[verifier::rlimit(60)]
pub(crate) proof fn lemma_child_added(old: Seq<Node>, nn: Seq<Node>, root: int, id: int, k: int)
    requires
        nodes_wf(old, root),
        0 <= id < old.len(),
        0 <= k < 8,
        old[id].children@[k] is None,
        nn.len() == old.len() + 1,
        old.len() <= usize::MAX,
        forall|i: int|
            0 <= i < old.len() ==> {
                &&& (#[trigger] nn[i]).bcube == old[i].bcube
                &&& nn[i].parent == old[i].parent
                &&& nn[i].octant == old[i].octant
                &&& forall|j: int|
                    0 <= j < 8 && (i != id || j != k) ==> #[trigger] nn[i].children@[j]
                        == old[i].children@[j]
            },
        nn[id].children@[k] == Some(NodeID(old.len() as usize)),
        nn[old.len() as int].parent == Some(NodeID(id as usize)),
        nn[old.len() as int].octant.spec_bits() == k,
        placed_in(nn[old.len() as int].bcube, nn[old.len() as int].octant, old[id].bcube),
        !has_child(nn[old.len() as int]),
    ensures
        nodes_wf(nn, root),
{
    let c = old.len() as int;
    assert(node_wf(old, root, id));
    assert forall|i: int| 0 <= i < nn.len() implies #[trigger] node_wf(nn, root, i) by {
        if i < old.len() {
            assert(node_wf(old, root, i));
            if let Some(p) = old[i].parent {
                assert(node_wf(old, root, p.0 as int));
                assert(nn[p.0 as int].children@[nn[i].octant.spec_bits()] == old[p.0 as int].children@[old[i].octant.spec_bits()]);
            }
            assert forall|j: int| 0 <= j < 8 && (#[trigger] nn[i].children@[j]) is Some implies {
                let ch = slot_index(nn[i].children@[j]);
                &&& 0 <= ch < nn.len()
                &&& nn[ch].parent == Some(NodeID(i as usize))
                &&& nn[ch].octant.spec_bits() == j
            } by {
                if i != id || j != k {
                    assert(old[i].children@[j] is Some);
                    let ch = slot_index(old[i].children@[j]);
                    assert(node_wf(old, root, ch));
                }
            }
        } else {
            assert(i == c);
            assert(!(nn[i].children@[0] is Some));
            assert forall|j: int| 0 <= j < 8 implies !(#[trigger] nn[i].children@[j] is Some) by {
                if j == 0 {} else if j == 1 {} else if j == 2 {} else if j == 3 {}
                else if j == 4 {} else if j == 5 {} else if j == 6 {} else {}
            }
            assert(in_bounds(old[id].bcube));
        }
    }
}

/// Growing the root toward a point of the world keeps the new root within bounds.
pub(crate) proof fn lemma_grow_bounds(old: BoundingCube, v: Vec3, new: BoundingCube)
    requires
        root_bounds(old),
        in_bounds(old),
        in_world(v),
        old.half_edge < 4 * WORLD_LIMIT,
        placed_in(old, octant_toward(old.center, v), new),
    ensures
        in_bounds(new),
        root_bounds(new),
{
}

/// The root, grown into a new parent appended at the end of the arena, keeps
/// the arena a tree under the new parent.
#[verifier::spinoff_prover]
#[verifier::rlimit(60)]
pub(crate) proof fn lemma_parent_added(old: Seq<Node>, nn: Seq<Node>, root: int, o: Octant)
    requires
        nodes_wf(old, root),
        old.len() <= usize::MAX,
        nn.len() == old.len() + 1,
        forall|i: int|
            0 <= i < old.len() ==> {
                &&& (#[trigger] nn[i]).bcube == old[i].bcube
                &&& (i != root ==> nn[i].parent == old[i].parent && nn[i].octant == old[i].octant)
                &&& forall|j: int| 0 <= j < 8 ==> #[trigger] nn[i].children@[j] == old[i].children@[j]
            },
        nn[root].parent == Some(NodeID(old.len() as usize)),
        nn[root].octant == o,
        nn[old.len() as int].parent is None,
        forall|j: int|
            0 <= j < 8 ==> #[trigger] nn[old.len() as int].children@[j] == if j == o.spec_bits() {
                Some(NodeID(root as usize))
            } else {
                None
            },
        placed_in(old[root].bcube, o, nn[old.len() as int].bcube),
        in_bounds(nn[old.len() as int].bcube),
        root_bounds(nn[old.len() as int].bcube),
    ensures
        nodes_wf(nn, old.len() as int),
{
    let c = old.len() as int;
    assert(node_wf(old, root, root));
    assert forall|i: int| 0 <= i < nn.len() implies #[trigger] node_wf(nn, c, i) by {
        if i < old.len() {
            assert(node_wf(old, root, i));
            if i != root {
                let p = slot_index(old[i].parent);
                assert(node_wf(old, root, p));
                assert(nn[p].children@[nn[i].octant.spec_bits()] == old[p].children@[old[i].octant.spec_bits()]);
            }
            assert forall|j: int| 0 <= j < 8 && (#[trigger] nn[i].children@[j]) is Some implies {
                let ch = slot_index(nn[i].children@[j]);
                &&& 0 <= ch < nn.len()
                &&& nn[ch].parent == Some(NodeID(i as usize))
                &&& nn[ch].octant.spec_bits() == j
            } by {
                assert(old[i].children@[j] is Some);
                let ch = slot_index(old[i].children@[j]);
                assert(node_wf(old, root, ch));
            }
        } else {
            assert(i == c);
            assert forall|j: int| 0 <= j < 8 && (#[trigger] nn[i].children@[j]) is Some implies {
                let ch = slot_index(nn[i].children@[j]);
                &&& 0 <= ch < nn.len()
                &&& nn[ch].parent == Some(NodeID(i as usize))
                &&& nn[ch].octant.spec_bits() == j
            } by {
                assert(j == o.spec_bits());
            }
        }
    }
}

pub(crate) proof fn lemma_descend_path(nodes: Seq<Node>, path: Seq<int>, b: BoundingCube, min: int)
    requires
        descend_path(nodes, path, b, min),
    ensures
        descend_from(nodes, path[0], b, min) == descend_from(nodes, path.last(), b, min),
    decreases path.len(),
{
    if path.len() > 1 {
        let z = 0int;
        assert(descend_step(nodes, path[z], path[z + 1], b, min));
        let rest = path.subrange(1, path.len() as int);
        assert forall|k: int| 0 <= k < rest.len() - 1 implies #[trigger] descend_step(nodes, rest[k], rest[k + 1], b, min) by {
            assert(rest[k] == path[k + 1] && rest[k + 1] == path[k + 2]);
            assert(descend_step(nodes, path[k + 1], path[k + 2], b, min));
        }
        lemma_descend_path(nodes, rest, b, min);
    }
}

/// A root that must grow for a cube of the world is less than four world limits across.
pub(crate) proof fn lemma_grow_needed(nb: BoundingCube, b: BoundingCube)
    requires
        root_bounds(nb),
        b.valid(),
        nb.spec_octant(b.center) is None || nb.half_edge < b.half_edge,
    ensures
        nb.half_edge < 4 * WORLD_LIMIT,
{
}

/// The child in the octant of a parent holding a point holds that point too.
pub(crate) proof fn lemma_child_holds(parent: BoundingCube, o: Octant, child: BoundingCube, v: Vec3)
    requires
        placed_in(child, o, parent),
        parent.spec_octant(v) == Some(o),
    ensures
        child.spec_octant(v) is Some,
{
    lemma_axis_child(parent.center.x as int, child.half_edge as int, v.x as int, o.x, child.center.x as int);
    lemma_axis_child(parent.center.y as int, child.half_edge as int, v.y as int, o.y, child.center.y as int);
    lemma_axis_child(parent.center.z as int, child.half_edge as int, v.z as int, o.z, child.center.z as int);
}

pub(crate) proof fn lemma_axis_child(pc: int, h: int, p: int, s: bool, cc: int)
    requires
        axis_side(pc, 2 * h, p) == Some(s),
        cc == pc + axis_sign(s) * h,
    ensures
        axis_side(cc, h, p) is Some,
{
}

#[verifier::spinoff_prover]
#[verifier::rlimit(60)]
pub(crate) proof fn lemma_node_removed(old: Seq<Node>, f: Seq<Node>, root: int, id: int)
    requires
        nodes_wf(old, root),
        old.len() <= usize::MAX,
        0 <= id < old.len(),
        id != root,
        !has_child(old[id]),
        removed_by_swap(old, f, id),
    ensures
        nodes_wf(f, moved_to(id, old.len() - 1, root)),
{
    let last = old.len() - 1;
    let r2 = moved_to(id, last, root);
    assert forall|j: int| 0 <= j < f.len() implies #[trigger] node_wf(f, r2, j) by {
        let s = moved_from(id, last, j);
        assert(node_wf(old, root, s));
        assert(s != id);
        if let Some(pp) = old[s].parent {
            let pi = pp.0 as int;
            assert(node_wf(old, root, pi));
            if pi == id {
                let k = old[s].octant.spec_bits();
                assert(old[id].children@[k] is Some);
                assert(false);
            }
            let pj = moved_to(id, last, pi);
            assert(moved_from(id, last, pj) == pi);
            assert(f[pj].children@[old[s].octant.spec_bits()] == moved_slot(id, last, old[pi].children@[old[s].octant.spec_bits()]));
        }
        assert forall|k: int| 0 <= k < 8 && (#[trigger] f[j].children@[k]) is Some implies {
            let ch = slot_index(f[j].children@[k]);
            &&& 0 <= ch < f.len()
            &&& f[ch].parent == Some(NodeID(j as usize))
            &&& f[ch].octant.spec_bits() == k
        } by {
            assert(old[s].children@[k] is Some);
            let c = slot_index(old[s].children@[k]);
            assert(node_wf(old, root, c));
            assert(c != id);
            let cj = moved_to(id, last, c);
            assert(moved_from(id, last, cj) == c);
            assert(f[cj].parent == moved_ref(id, last, old[c].parent));
        }
    }
}

pub(crate) proof fn lemma_entries_removed<T>(
    old: Seq<Node>,
    f: Seq<Node>,
    old_entries: Seq<Entry<T>>,
    entries: Seq<Entry<T>>,
    min: int,
    id: int,
)
    requires
        entries_wf(old, old_entries, min),
        old.len() <= usize::MAX,
        0 <= id < old.len(),
        old[id].contents@.len() == 0,
        removed_by_swap(old, f, id),
        entries.len() == old_entries.len(),
        forall|e: int|
            0 <= e < entries.len() ==> {
                &&& (#[trigger] entries[e]).bcube == old_entries[e].bcube
                &&& entries[e].node == NodeID(
                    moved_to(id, old.len() - 1, old_entries[e].node.0 as int) as usize,
                )
            },
    ensures
        entries_wf(f, entries, min),
{
    let last = old.len() - 1;
    assert forall|e: int| 0 <= e < entries.len() implies #[trigger] entry_wf(f, entries, min, e) by {
        assert(entry_wf(old, old_entries, min, e));
        let n = old_entries[e].node.0 as int;
        assert(old[n].contents@.contains(e as u32));
        assert(n != id);
        assert(moved_from(id, last, moved_to(id, last, n)) == n);
    }
    assert forall|j: int| 0 <= j < f.len() implies #[trigger] contents_wf(f, entries, j) by {
        let s = moved_from(id, last, j);
        assert(contents_wf(old, old_entries, s));
        assert forall|k: int| 0 <= k < f[j].contents@.len() implies {
            let e = #[trigger] f[j].contents@[k];
            &&& (e as int) < entries.len()
            &&& entries[e as int].node.0 as int == j
        } by {
            let e = old[s].contents@[k];
            assert(old_entries[e as int].node == NodeID(s as usize));
        }
    }
}

/// The children of the last node, once the removed node's slot is emptied:
/// exactly the nodes whose parent it is, none of them the removed node.
pub(crate) proof fn lemma_moved_children(old: Seq<Node>, s1: Seq<Node>, root: int, id: int, parent: int, slot: int)
    requires
        nodes_wf(old, root),
        old.len() <= usize::MAX,
        0 <= id < old.len() - 1,
        0 <= parent < old.len(),
        old[id].parent == Some(NodeID(parent as usize)),
        old[id].octant.spec_bits() == slot,
        slot_cleared(old, s1, parent, slot),
    ensures
        forall|kk: int|
            0 <= kk < 8 && (#[trigger] s1[old.len() - 1].children@[kk]) is Some ==> {
                let c = slot_index(s1[old.len() - 1].children@[kk]);
                &&& 0 <= c < old.len() - 1
                &&& c != id
            },
{
    let last = old.len() - 1;
    assert forall|kk: int| 0 <= kk < 8 && (#[trigger] s1[last].children@[kk]) is Some implies {
        let c = slot_index(s1[last].children@[kk]);
        &&& 0 <= c < last
        &&& c != id
    } by {
        assert(node_wf(old, root, last));
        assert(old[last].children@[kk] is Some);
        let c = slot_index(old[last].children@[kk]);
        assert(node_wf(old, root, c));
        assert(node_wf(old, root, id));
    }
}

#[verifier::spinoff_prover]
#[verifier::rlimit(60)]
pub(crate) proof fn lemma_pop_result(old: Seq<Node>, s1: Seq<Node>, f: Seq<Node>, root: int, id: int, parent: int, slot: int)
    requires
        nodes_wf(old, root),
        old.len() <= usize::MAX,
        id == old.len() - 1,
        id != root,
        0 <= parent < old.len(),
        old[id].parent == Some(NodeID(parent as usize)),
        old[id].octant.spec_bits() == slot,
        slot_cleared(old, s1, parent, slot),
        f.len() == old.len() - 1,
        forall|j: int| 0 <= j < f.len() ==> #[trigger] f[j] == s1[j],
    ensures
        removed_by_swap(old, f, id),
{
    let last = id;
    assert(node_wf(old, root, id));
    assert forall|j: int| 0 <= j < last implies {
        let s = moved_from(id, last, j);
        &&& (#[trigger] f[j]).bcube == old[s].bcube
        &&& f[j].octant == old[s].octant
        &&& f[j].contents == old[s].contents
        &&& f[j].tag == old[s].tag
        &&& f[j].parent == moved_ref(id, last, old[s].parent)
        &&& forall|k: int| 0 <= k < 8 ==> #[trigger] f[j].children@[k] == moved_slot(id, last, old[s].children@[k])
    } by {
        assert(node_wf(old, root, j));
        assert forall|k: int| 0 <= k < 8 implies #[trigger] f[j].children@[k] == moved_slot(id, last, old[j].children@[k]) by {
            if old[j].children@[k] == Some(NodeID(id as usize)) {
                let c = slot_index(old[j].children@[k]);
                assert(node_wf(old, root, c));
            }
        }
    }
}

#[verifier::spinoff_prover]
#[verifier::rlimit(60)]
pub(crate) proof fn lemma_swap_result(old: Seq<Node>, s1: Seq<Node>, f: Seq<Node>, root: int, id: int, parent: int, slot: int)
    requires
        nodes_wf(old, root),
        old.len() <= usize::MAX,
        0 <= id < old.len() - 1,
        id != root,
        !has_child(old[id]),
        0 <= parent < old.len(),
        old[id].parent == Some(NodeID(parent as usize)),
        old[id].octant.spec_bits() == slot,
        slot_cleared(old, s1, parent, slot),
        f.len() == old.len() - 1,
        f[id] == s1[old.len() - 1],
        forall|j: int|
            0 <= j < old.len() - 1 && j != id ==> {
                &&& (#[trigger] f[j]).bcube == old[j].bcube
                &&& f[j].octant == old[j].octant
                &&& f[j].contents == old[j].contents
                &&& f[j].tag == old[j].tag
                &&& f[j].parent == if exists|k: int| 0 <= k < 8 && #[trigger] s1[old.len() - 1].children@[k] == Some(NodeID(j as usize)) {
                    Some(NodeID(id as usize))
                } else {
                    old[j].parent
                }
                &&& forall|k: int|
                    0 <= k < 8 ==> #[trigger] f[j].children@[k] == if j == slot_index(old[old.len() - 1].parent) && k == old[old.len() - 1].octant.spec_bits() {
                        Some(NodeID(id as usize))
                    } else {
                        s1[j].children@[k]
                    }
            },
    ensures
        removed_by_swap(old, f, id),
{
    let last = old.len() - 1;
    assert(node_wf(old, root, last));
    assert(node_wf(old, root, id));
    assert forall|j: int| 0 <= j < last implies {
        let s = moved_from(id, last, j);
        &&& (#[trigger] f[j]).bcube == old[s].bcube
        &&& f[j].octant == old[s].octant
        &&& f[j].contents == old[s].contents
        &&& f[j].tag == old[s].tag
        &&& f[j].parent == moved_ref(id, last, old[s].parent)
        &&& forall|k: int| 0 <= k < 8 ==> #[trigger] f[j].children@[k] == moved_slot(id, last, old[s].children@[k])
    } by {
        if j == id {
            assert forall|k: int| 0 <= k < 8 implies #[trigger] f[j].children@[k] == moved_slot(id, last, old[last].children@[k]) by {
                if old[last].children@[k] is Some {
                    let c = slot_index(old[last].children@[k]);
                    assert(node_wf(old, root, c));
                }
            }
            if let Some(pp) = old[last].parent {
                assert(node_wf(old, root, pp.0 as int));
            }
        } else {
            assert(node_wf(old, root, j));
            assert forall|k: int| 0 <= k < 8 implies #[trigger] f[j].children@[k] == moved_slot(id, last, old[j].children@[k]) by {
                if old[j].children@[k] is Some {
                    let c = slot_index(old[j].children@[k]);
                    assert(node_wf(old, root, c));
                }
            }
            if old[j].parent == Some(NodeID(last as usize)) {
                let k = old[j].octant.spec_bits();
                assert(s1[last].children@[k] == Some(NodeID(j as usize)));
            } else if exists|k: int| 0 <= k < 8 && s1[last].children@[k] == Some(NodeID(j as usize)) {
                let k = choose|k: int| 0 <= k < 8 && s1[last].children@[k] == Some(NodeID(j as usize));
                assert(old[last].children@[k] is Some);
            }
        }
    }
}

pub(crate) proof fn lemma_pow2_grows(j: nat, k: nat)
    requires
        j < k,
    ensures
        1 <= pow2(j) < pow2(k),
    decreases k,
{
    if j + 1 < k {
        lemma_pow2_grows(j, (k - 1) as nat);
    }
    lemma_pow2_positive(j);
}

pub(crate) proof fn lemma_pow2_order(j: nat, k: nat, h: int)
    requires
        h >= 1,
    ensures
        j < k ==> pow2(j) * h < pow2(k) * h,
        j == k ==> pow2(j) * h == pow2(k) * h,
        j > k ==> pow2(j) * h > pow2(k) * h,
{
    if j < k {
        lemma_pow2_grows(j, k);
        assert(pow2(j) * h < pow2(k) * h) by (nonlinear_arith)
            requires
                1 <= pow2(j) < pow2(k),
                h >= 1,
        ;
    } else if j > k {
        lemma_pow2_grows(k, j);
        assert(pow2(k) * h < pow2(j) * h) by (nonlinear_arith)
            requires
                1 <= pow2(k) < pow2(j),
                h >= 1,
        ;
    }
}

pub(crate) proof fn lemma_pow2_positive(k: nat)
    ensures
        pow2(k) >= 1,
    decreases k,
{
    if k > 0 {
        lemma_pow2_positive((k - 1) as nat);
    }
}

/// A point of a child's cube is a point of its parent's cube.
pub(crate) proof fn lemma_parent_holds(child: BoundingCube, o: Octant, parent: BoundingCube, v: Vec3)
    requires
        placed_in(child, o, parent),
        child.spec_octant(v) is Some,
        child.half_edge >= 1,
    ensures
        parent.spec_octant(v) is Some,
{
}

/// An entry added at the end of the table, held by node `n` where it belongs,
/// keeps the entries consistent.
pub(crate) proof fn lemma_entry_added<T>(
    nodes: Seq<Node>,
    nn: Seq<Node>,
    entries: Seq<Entry<T>>,
    ne: Seq<Entry<T>>,
    min: int,
    n: int,
)
    requires
        entries_wf(nodes, entries, min),
        entries.len() < u32::MAX,
        0 <= n < nodes.len(),
        n <= usize::MAX,
        nn.len() == nodes.len(),
        ne == entries.push(ne.last()),
        ne.last().node == NodeID(n as usize),
        fits(nodes[n].bcube, ne.last().bcube, min),
        ne.last().bcube.valid(),
        forall|i: int| 0 <= i < nodes.len() && i != n ==> #[trigger] nn[i] == nodes[i],
        nn[n].bcube == nodes[n].bcube,
        nn[n].contents@ == nodes[n].contents@.push(entries.len() as u32),
    ensures
        entries_wf(nn, ne, min),
{
    let r = entries.len() as int;
    assert forall|e: int| 0 <= e < ne.len() implies #[trigger] entry_wf(nn, ne, min, e) by {
        if e < r {
            assert(entry_wf(nodes, entries, min, e));
            assert(ne[e] == entries[e]);
            let m = entries[e].node.0 as int;
            if m != n {
                assert(nn[m] == nodes[m]);
            } else {
                let t = choose|t: int| 0 <= t < nodes[n].contents@.len() && nodes[n].contents@[t] == e as u32;
                assert(nn[n].contents@[t] == e as u32);
            }
        } else {
            assert(nn[n].contents@[nodes[n].contents@.len() as int] == r as u32);
        }
    }
    assert forall|i: int| 0 <= i < nn.len() implies #[trigger] contents_wf(nn, ne, i) by {
        assert(contents_wf(nodes, entries, i));
        if i == n {
            assert forall|a: int, c: int| 0 <= a < c < nn[n].contents@.len() implies nn[n].contents@[a] != nn[n].contents@[c] by {
                if c == nodes[n].contents@.len() {
                    assert((nodes[n].contents@[a] as int) < r);
                }
            }
        }
    }
}

/// Changing only what nodes hold keeps the arena a tree.
pub(crate) proof fn lemma_contents_only(old: Seq<Node>, nn: Seq<Node>, root: int)
    requires
        nodes_wf(old, root),
        nn.len() == old.len(),
        forall|i: int|
            0 <= i < old.len() ==> {
                &&& (#[trigger] nn[i]).bcube == old[i].bcube
                &&& nn[i].parent == old[i].parent
                &&& nn[i].octant == old[i].octant
                &&& nn[i].children == old[i].children
            },
    ensures
        nodes_wf(nn, root),
{
    assert forall|i: int| 0 <= i < nn.len() implies #[trigger] node_wf(nn, root, i) by {
        assert(node_wf(old, root, i));
        if let Some(p) = old[i].parent {
            assert(nn[p.0 as int].children == old[p.0 as int].children);
        }
        assert forall|k: int| 0 <= k < 8 && (#[trigger] nn[i].children@[k]) is Some implies {
            let c = slot_index(nn[i].children@[k]);
            &&& 0 <= c < nn.len()
            &&& nn[c].parent == Some(NodeID(i as usize))
            &&& nn[c].octant.spec_bits() == k
        } by {
            assert(old[i].children@[k] is Some);
        }
    }
}

/// Entry `e`, with a new cube that still belongs in its node, keeps the entries consistent.
pub(crate) proof fn lemma_entry_rebounded<T>(nodes: Seq<Node>, entries: Seq<Entry<T>>, ne: Seq<Entry<T>>, min: int, e: int)
    requires
        entries_wf(nodes, entries, min),
        0 <= e < entries.len(),
        ne.len() == entries.len(),
        forall|x: int| 0 <= x < entries.len() && x != e ==> #[trigger] ne[x] == entries[x],
        ne[e].node == entries[e].node,
        fits(nodes[entries[e].node.0 as int].bcube, ne[e].bcube, min),
        ne[e].bcube.valid(),
    ensures
        entries_wf(nodes, ne, min),
{
    assert forall|x: int| 0 <= x < ne.len() implies #[trigger] entry_wf(nodes, ne, min, x) by {
        assert(entry_wf(nodes, entries, min, x));
    }
    assert forall|i: int| 0 <= i < nodes.len() implies #[trigger] contents_wf(nodes, ne, i) by {
        assert(contents_wf(nodes, entries, i));
        assert forall|k: int| 0 <= k < nodes[i].contents@.len() implies {
            let x = #[trigger] nodes[i].contents@[k];
            &&& (x as int) < ne.len()
            &&& ne[x as int].node.0 as int == i
        } by {
            let x = nodes[i].contents@[k];
            if x as int != e {
                assert(ne[x as int] == entries[x as int]);
            }
        }
    }
}

/// Entry `e` moved from node `cur` to node `new`, where its new cube belongs,
/// keeps the entries consistent.
pub(crate) proof fn lemma_entry_moved<T>(
    nodes: Seq<Node>,
    nn: Seq<Node>,
    entries: Seq<Entry<T>>,
    ne: Seq<Entry<T>>,
    min: int,
    e: int,
    new: int,
    pos: int,
)
    requires
        entries_wf(nodes, entries, min),
        0 <= e < entries.len(),
        0 <= new < nodes.len(),
        new <= usize::MAX,
        new != entries[e].node.0 as int,
        nn.len() == nodes.len(),
        0 <= pos < nodes[entries[e].node.0 as int].contents@.len(),
        nodes[entries[e].node.0 as int].contents@[pos] == e as u32,
        forall|i: int| 0 <= i < nodes.len() ==> (#[trigger] nn[i]).bcube == nodes[i].bcube,
        forall|i: int|
            0 <= i < nodes.len() && i != new && i != entries[e].node.0 as int ==> (#[trigger] nn[i]).contents == nodes[i].contents,
        nn[entries[e].node.0 as int].contents@ == nodes[entries[e].node.0 as int].contents@.remove(pos),
        nn[new].contents@ == nodes[new].contents@.push(e as u32),
        ne.len() == entries.len(),
        forall|x: int| 0 <= x < entries.len() && x != e ==> #[trigger] ne[x] == entries[x],
        ne[e].node == NodeID(new as usize),
        fits(nodes[new].bcube, ne[e].bcube, min),
        ne[e].bcube.valid(),
    ensures
        entries_wf(nn, ne, min),
{
    let cur = entries[e].node.0 as int;
    assert(entry_wf(nodes, entries, min, e));
    assert(contents_wf(nodes, entries, cur));
    assert(contents_wf(nodes, entries, new));
    assert forall|x: int| 0 <= x < ne.len() implies #[trigger] entry_wf(nn, ne, min, x) by {
        if x == e {
            assert(nn[new].contents@[nodes[new].contents@.len() as int] == e as u32);
        } else {
            assert(entry_wf(nodes, entries, min, x));
            assert(ne[x] == entries[x]);
            let m = entries[x].node.0 as int;
            let t = choose|t: int| 0 <= t < nodes[m].contents@.len() && nodes[m].contents@[t] == x as u32;
            if m == new {
                assert(nn[new].contents@[t] == x as u32);
            } else if m == cur {
                assert(t != pos);
                if t < pos {
                    assert(nn[cur].contents@[t] == x as u32);
                } else {
                    assert(nn[cur].contents@[t - 1] == x as u32);
                }
            }
        }
    }
    assert forall|i: int| 0 <= i < nn.len() implies #[trigger] contents_wf(nn, ne, i) by {
        assert(contents_wf(nodes, entries, i));
        if i == new {
            assert forall|a: int, c: int| 0 <= a < c < nn[new].contents@.len() implies nn[new].contents@[a] != nn[new].contents@[c] by {
                if c == nodes[new].contents@.len() {
                    let x = nodes[new].contents@[a];
                    assert(entries[x as int].node == NodeID(new as usize));
                }
            }
            assert forall|k: int| 0 <= k < nn[i].contents@.len() implies {
                let x = #[trigger] nn[i].contents@[k];
                &&& (x as int) < ne.len()
                &&& ne[x as int].node.0 as int == i
            } by {
                if k < nodes[new].contents@.len() {
                    let x = nodes[new].contents@[k];
                    assert(entries[x as int].node == NodeID(new as usize));
                    assert(x as int != e);
                }
            }
        } else if i == cur {
            assert forall|k: int| 0 <= k < nn[i].contents@.len() implies {
                let x = #[trigger] nn[i].contents@[k];
                &&& (x as int) < ne.len()
                &&& ne[x as int].node.0 as int == i
            } by {
                let t = if k < pos { k } else { k + 1 };
                assert(nn[i].contents@[k] == nodes[cur].contents@[t]);
                assert(t != pos);
            }
        } else {
            assert forall|k: int| 0 <= k < nn[i].contents@.len() implies {
                let x = #[trigger] nn[i].contents@[k];
                &&& (x as int) < ne.len()
                &&& ne[x as int].node.0 as int == i
            } by {
                let x = nodes[i].contents@[k];
                assert(x as int != e);
            }
        }
    }
}

/// The walk down from a node depends only on the nodes' cubes and children.
pub(crate) proof fn lemma_descend_same(a: Seq<Node>, b: Seq<Node>, i: int, bc: BoundingCube, min: int)
    requires
        a.len() == b.len(),
        forall|j: int| 0 <= j < a.len() ==> (#[trigger] a[j]).bcube == b[j].bcube && a[j].children == b[j].children,
    ensures
        descend_from(a, i, bc, min) == descend_from(b, i, bc, min),
    decreases (if 0 <= i < a.len() && a[i].bcube.half_edge > 0 {
        a[i].bcube.half_edge as int
    } else {
        0
    }),
{
    if 0 <= i < a.len() && a[i].bcube.half_edge > 0 {
        assert(a[i].bcube == b[i].bcube && a[i].children == b[i].children);
        if let Some(o) = a[i].bcube.spec_octant(bc.center) {
            let c = slot_index(a[i].children@[o.spec_bits()]);
            if 0 <= c < a.len() {
                assert(a[c].bcube == b[c].bcube);
                if 0 < a[c].bcube.half_edge < a[i].bcube.half_edge {
                    lemma_descend_same(a, b, c, bc, min);
                }
            }
        }
    }
}

/// Nodes keep their tags, and one node added at the end takes the next tag.
pub(crate) proof fn lemma_tags_kept(old: Seq<Node>, nn: Seq<Node>, next: nat, next2: nat)
    requires
        tags_wf(old, next),
        nn.len() == old.len() || (nn.len() == old.len() + 1 && nn[old.len() as int].tag@ == next),
        next2 == if nn.len() == old.len() { next } else { next + 1 },
        forall|i: int| 0 <= i < old.len() ==> (#[trigger] nn[i]).tag == old[i].tag,
    ensures
        tags_wf(nn, next2),
{
    assert forall|i: int, j: int| 0 <= i < nn.len() && 0 <= j < nn.len() && i != j implies (#[trigger] nn[i]).tag@ != (#[trigger] nn[j]).tag@ by {
        if i < old.len() && j < old.len() {
            assert(old[i].tag@ != old[j].tag@);
        } else if i < old.len() {
            assert(old[i].tag@ < next);
        } else if j < old.len() {
            assert(old[j].tag@ < next);
        }
    }
    assert forall|i: int| 0 <= i < nn.len() implies (#[trigger] nn[i]).tag@ < next2 by {
        if i < old.len() {
            assert(old[i].tag@ < next);
        }
    }
}

/// Removing a node by swapping in the last one keeps the tags distinct.
pub(crate) proof fn lemma_tags_removed(old: Seq<Node>, f: Seq<Node>, id: int, next: nat)
    requires
        tags_wf(old, next),
        0 <= id < old.len(),
        removed_by_swap(old, f, id),
    ensures
        tags_wf(f, next),
{
    let last = old.len() - 1;
    assert forall|i: int, j: int| 0 <= i < f.len() && 0 <= j < f.len() && i != j implies (#[trigger] f[i]).tag@ != (#[trigger] f[j]).tag@ by {
        assert(old[moved_from(id, last, i)].tag@ != old[moved_from(id, last, j)].tag@);
    }
    assert forall|i: int| 0 <= i < f.len() implies (#[trigger] f[i]).tag@ < next by {
        assert(old[moved_from(id, last, i)].tag@ < next);
    }
}

pub(crate) proof fn lemma_ancestor_inner(nodes: Seq<Node>, i: int, k: nat)
    ensures
        ancestor(nodes, i, k + 1) == ancestor(nodes, step_up(nodes, i), k),
    decreases k,
{
    let u = step_up(nodes, i);
    if k > 0 {
        lemma_ancestor_inner(nodes, i, (k - 1) as nat);
        assert(ancestor(nodes, i, k + 1) == step_up(nodes, ancestor(nodes, i, k)));
        assert(ancestor(nodes, u, k) == step_up(nodes, ancestor(nodes, u, (k - 1) as nat)));
    } else {
        assert(ancestor(nodes, i, 1) == step_up(nodes, ancestor(nodes, i, 0)));
        assert(ancestor(nodes, u, 0) == u);
    }
}

/// Ancestors are nodes of the arena, no smaller than the node they are above.
pub(crate) proof fn lemma_ancestor_grows(nodes: Seq<Node>, root: int, i: int, k: nat)
    requires
        nodes_wf(nodes, root),
        0 <= i < nodes.len(),
    ensures
        0 <= ancestor(nodes, i, k) < nodes.len(),
        nodes[ancestor(nodes, i, k)].bcube.half_edge >= nodes[i].bcube.half_edge,
    decreases k,
{
    if k > 0 {
        lemma_ancestor_grows(nodes, root, i, (k - 1) as nat);
        let a = ancestor(nodes, i, (k - 1) as nat);
        assert(node_wf(nodes, root, a));
    }
}

/// A node strictly above another keeps a child, or is the top: pruning cannot remove it.
pub(crate) proof fn lemma_ancestor_kept(nodes: Seq<Node>, root: int, i: int, k: nat)
    requires
        nodes_wf(nodes, root),
        0 <= i < nodes.len(),
        k >= 1,
    ensures
        !prunable(nodes[ancestor(nodes, i, k)]),
{
    let b = ancestor(nodes, i, (k - 1) as nat);
    lemma_ancestor_grows(nodes, root, i, (k - 1) as nat);
    assert(node_wf(nodes, root, b));
    let a = ancestor(nodes, i, k);
    if nodes[b].parent is Some {
        let bits = nodes[b].octant.spec_bits();
        assert(nodes[a].children@[bits] is Some);
        assert(has_child(nodes[a])) by {
            if bits == 0 {} else if bits == 1 {} else if bits == 2 {} else if bits == 3 {}
            else if bits == 4 {} else if bits == 5 {} else if bits == 6 {} else {}
        }
    }
}

/// After a swap removal of `id`, the chain above a node `x` that is larger
/// than `id` follows the renaming.
pub(crate) proof fn lemma_ancestor_after_removal(old: Seq<Node>, f: Seq<Node>, root: int, id: int, x: int, k: nat)
    requires
        nodes_wf(old, root),
        old.len() <= usize::MAX,
        0 <= id < old.len(),
        0 <= x < old.len(),
        old[x].bcube.half_edge > old[id].bcube.half_edge,
        removed_by_swap(old, f, id),
    ensures
        ancestor(f, moved_to(id, old.len() - 1, x), k) == moved_to(id, old.len() - 1, ancestor(old, x, k)),
    decreases k,
{
    let last = old.len() - 1;
    if k > 0 {
        let k1 = (k - 1) as nat;
        lemma_ancestor_after_removal(old, f, root, id, x, k1);
        lemma_ancestor_grows(old, root, x, k1);
        let a = ancestor(old, x, k1);
        assert(a != id);
        let a2 = moved_to(id, last, a);
        assert(moved_from(id, last, a2) == a);
        assert(f[a2].parent == moved_ref(id, last, old[a].parent));
        assert(node_wf(old, root, a));
    }
}

/// Where only the top node gained a parent, every old ancestor is still an ancestor.
pub(crate) proof fn lemma_ancestor_after_growth(old: Seq<Node>, mid: Seq<Node>, root: int, i: int, k: nat)
    requires
        nodes_wf(old, root),
        0 <= i < old.len(),
        mid.len() >= old.len(),
        forall|j: int| 0 <= j < old.len() && j != root ==> (#[trigger] mid[j]).parent == old[j].parent,
    ensures
        exists|k2: nat| k2 <= k && ancestor(old, i, k) == #[trigger] ancestor(mid, i, k2),
    decreases k,
{
    if k == 0 {
        assert(ancestor(old, i, 0) == ancestor(mid, i, 0));
    } else {
        let k1 = (k - 1) as nat;
        lemma_ancestor_after_growth(old, mid, root, i, k1);
        lemma_ancestor_grows(old, root, i, k1);
        let a = ancestor(old, i, k1);
        let k2 = choose|k2: nat| k2 <= k1 && a == #[trigger] ancestor(mid, i, k2);
        assert(node_wf(old, root, a));
        if a == root {
            assert(ancestor(old, i, k) == ancestor(mid, i, k2));
        } else {
            assert(ancestor(mid, i, k2 + 1) == step_up(mid, a));
            assert(ancestor(old, i, k) == ancestor(mid, i, k2 + 1));
        }
    }
}

/// Once the node `id` was freed and pruning went on from its parent: the
/// tags left are old ones, and no survivor of the chain above `id` is prunable.
pub(crate) proof fn lemma_prune_step(old: Seq<Node>, mid: Seq<Node>, fin: Seq<Node>, root: int, id: int, p: int, next: nat)
    requires
        nodes_wf(old, root),
        tags_wf(old, next),
        old.len() <= usize::MAX,
        0 <= id < old.len(),
        0 <= p < old.len(),
        old[id].parent == Some(NodeID(p as usize)),
        removed_by_swap(old, mid, id),
        forall|i: int|
            0 <= i < fin.len() ==> exists|j: int|
                0 <= j < mid.len() && (#[trigger] fin[i]).tag == (#[trigger] mid[j]).tag,
        forall|k: nat, i: int|
            #![trigger fin[i], ancestor(mid, moved_to(id, old.len() - 1, p), k)]
            0 <= i < fin.len() && fin[i].tag == mid[ancestor(mid, moved_to(id, old.len() - 1, p), k)].tag
                ==> !prunable(fin[i]),
    ensures
        forall|i: int|
            0 <= i < fin.len() ==> exists|j: int|
                0 <= j < old.len() && (#[trigger] fin[i]).tag == (#[trigger] old[j]).tag,
        forall|k: nat, i: int|
            #![trigger fin[i], ancestor(old, id, k)]
            0 <= i < fin.len() && fin[i].tag == old[ancestor(old, id, k)].tag ==> !prunable(fin[i]),
{
    let last = old.len() - 1;
    let up = moved_to(id, last, p);
    assert(node_wf(old, root, id));
    assert(node_wf(old, root, p));
    assert forall|i: int| 0 <= i < fin.len() implies exists|j: int|
        0 <= j < old.len() && (#[trigger] fin[i]).tag == (#[trigger] old[j]).tag by {
        let j2 = choose|j2: int| 0 <= j2 < mid.len() && fin[i].tag == mid[j2].tag;
        let j = moved_from(id, last, j2);
        assert(mid[j2].tag == old[j].tag);
    }
    assert forall|kk: nat, i: int|
        #![trigger fin[i], ancestor(old, id, kk)]
        0 <= i < fin.len() && fin[i].tag == old[ancestor(old, id, kk)].tag implies !prunable(fin[i]) by {
        let j2 = choose|j2: int| 0 <= j2 < mid.len() && fin[i].tag == mid[j2].tag;
        let j = moved_from(id, last, j2);
        assert(mid[j2].tag == old[j].tag);
        if kk == 0 {
            assert(j != id);
            assert(old[j].tag@ != old[id].tag@);
        } else {
            let k1 = (kk - 1) as nat;
            lemma_ancestor_inner(old, id, k1);
            assert(step_up(old, id) == p);
            lemma_ancestor_after_removal(old, mid, root, id, p, k1);
            lemma_ancestor_grows(old, root, p, k1);
            let a = ancestor(old, p, k1);
            assert(a != id);
            let a2 = moved_to(id, last, a);
            assert(moved_from(id, last, a2) == a);
            assert(mid[a2].tag == old[a].tag);
            assert(ancestor(mid, up, k1) == a2);
        }
    }
}

/// A node that pruning leaves alone, and every node above it, is not prunable.
pub(crate) proof fn lemma_prune_none(old: Seq<Node>, root: int, id: int, next: nat)
    requires
        nodes_wf(old, root),
        tags_wf(old, next),
        0 <= id < old.len(),
        !prunable(old[id]),
    ensures
        forall|k: nat, i: int|
            #![trigger old[i], ancestor(old, id, k)]
            0 <= i < old.len() && old[i].tag == old[ancestor(old, id, k)].tag ==> !prunable(old[i]),
{
    assert forall|kk: nat, i: int|
        #![trigger old[i], ancestor(old, id, kk)]
        0 <= i < old.len() && old[i].tag == old[ancestor(old, id, kk)].tag implies !prunable(old[i]) by {
        lemma_ancestor_grows(old, root, id, kk);
        let a = ancestor(old, id, kk);
        assert(i == a);
        if kk >= 1 {
            lemma_ancestor_kept(old, root, id, kk);
        }
    }
}

/// The chain above a node depends only on the nodes' parents.
pub(crate) proof fn lemma_ancestor_same_parents(a: Seq<Node>, b: Seq<Node>, i: int, k: nat)
    requires
        a.len() == b.len(),
        forall|j: int| 0 <= j < a.len() ==> (#[trigger] a[j]).parent == b[j].parent,
    ensures
        ancestor(a, i, k) == ancestor(b, i, k),
    decreases k,
{
    if k > 0 {
        lemma_ancestor_same_parents(a, b, i, (k - 1) as nat);
        let x = ancestor(a, i, (k - 1) as nat);
        if 0 <= x < a.len() {
            assert(a[x].parent == b[x].parent);
        }
    }
}

/// Pruning that leaves everything alone removes the empty run of zero nodes.
pub(crate) proof fn lemma_chain_none(old: Seq<Node>, id: int)
    requires
        0 <= id < old.len(),
    ensures
        pruned_chain(old, old, id, 0, id),
{
    assert(ancestor(old, id, 0) == id);
    assert forall|x: int| 0 <= x < old.len() && !in_chain(old, id, 0, x) implies #[trigger] survives(old[x], old) by {
        assert(old[x].tag == old[x].tag);
    }
    assert forall|i: int| 0 <= i < old.len() implies #[trigger] tag_from(old[i], old) by {
        assert(old[i].tag == old[i].tag);
    }
}

proof fn lemma_no_child(n: Node, s: int)
    requires
        !has_child(n),
        0 <= s < 8,
    ensures
        n.children@[s] is None,
{
    if s == 0 {} else if s == 1 {} else if s == 2 {} else if s == 3 {}
    else if s == 4 {} else if s == 5 {} else if s == 6 {} else {}
}

/// Facts about the `j`-th node above the parent `p` of a removed node `id`.
proof fn lemma_chain_link(old: Seq<Node>, mid: Seq<Node>, root: int, id: int, p: int, j: nat)
    requires
        nodes_wf(old, root),
        old.len() <= usize::MAX,
        0 <= id < old.len(),
        0 <= p < old.len(),
        old[id].parent == Some(NodeID(p as usize)),
        removed_by_swap(old, mid, id),
    ensures
        ancestor(old, id, j + 1) == ancestor(old, p, j),
        ancestor(old, p, j) != id,
        0 <= ancestor(old, p, j) < old.len(),
        ancestor(mid, moved_to(id, old.len() - 1, p), j) == moved_to(id, old.len() - 1, ancestor(old, p, j)),
        moved_from(id, old.len() - 1, moved_to(id, old.len() - 1, ancestor(old, p, j))) == ancestor(old, p, j),
        0 <= moved_to(id, old.len() - 1, ancestor(old, p, j)) < mid.len(),
{
    assert(node_wf(old, root, id));
    assert(node_wf(old, root, p));
    lemma_ancestor_inner(old, id, j);
    assert(step_up(old, id) == p);
    lemma_ancestor_grows(old, root, p, j);
    lemma_ancestor_after_removal(old, mid, root, id, p, j);
}

/// One freed node followed by pruning from its parent is pruning from the
/// freed node, one node longer.
#[verifier::spinoff_prover]
#[verifier::rlimit(60)]
pub(crate) proof fn lemma_chain_step(
    old: Seq<Node>,
    mid: Seq<Node>,
    fin: Seq<Node>,
    root: int,
    id: int,
    p: int,
    k: nat,
    r: int,
    next: nat,
)
    requires
        nodes_wf(old, root),
        tags_wf(old, next),
        old.len() <= usize::MAX,
        0 <= id < old.len(),
        0 <= p < old.len(),
        old[id].parent == Some(NodeID(p as usize)),
        old[id].contents@.len() == 0,
        !has_child(old[id]),
        removed_by_swap(old, mid, id),
        pruned_chain(mid, fin, moved_to(id, old.len() - 1, p), k, r),
    ensures
        pruned_chain(old, fin, id, k + 1, r),
{
    let last = old.len() - 1;
    let up = moved_to(id, last, p);
    assert(node_wf(old, root, id));
    assert(node_wf(old, root, p));
    lemma_chain_link(old, mid, root, id, p, k);
    assert(fin[r].tag == old[ancestor(old, id, k + 1)].tag);
    // the slot toward the removed run
    if k == 0 {
        assert(ancestor(old, id, 0) == id);
        assert(moved_from(id, last, up) == p);
        assert(old[p].children@[old[id].octant.spec_bits()] == Some(NodeID(id as usize)));
        assert(mid[up].children@[old[id].octant.spec_bits()] == moved_slot(id, last, old[p].children@[old[id].octant.spec_bits()]));
    } else {
        lemma_chain_link(old, mid, root, id, p, (k - 1) as nat);
        assert(ancestor(old, id, k) == ancestor(old, p, (k - 1) as nat));
    }
    // the removed nodes held nothing and had no child off the run
    assert forall|j: nat| j < k + 1 implies {
        &&& (#[trigger] old[ancestor(old, id, j)]).contents@.len() == 0
        &&& old[ancestor(old, id, j)].parent is Some
        &&& forall|s: int|
            0 <= s < 8 && (#[trigger] old[ancestor(old, id, j)].children@[s]) is Some ==> j > 0
                && slot_index(old[ancestor(old, id, j)].children@[s]) == ancestor(old, id, (j - 1) as nat)
    } by {
        if j == 0 {
            assert(ancestor(old, id, 0) == id);
            assert forall|s: int| 0 <= s < 8 implies !(#[trigger] old[ancestor(old, id, j)].children@[s] is Some) by {
                lemma_no_child(old[id], s);
            }
        } else {
            let j1 = (j - 1) as nat;
            lemma_chain_link(old, mid, root, id, p, j1);
            let a = ancestor(old, p, j1);
            let a2 = moved_to(id, last, a);
            assert(mid[ancestor(mid, up, j1)] == mid[a2]);
            assert(mid[a2].contents == old[a].contents);
            assert(mid[a2].parent == moved_ref(id, last, old[a].parent));
            assert forall|s: int| 0 <= s < 8 && (#[trigger] old[ancestor(old, id, j)].children@[s]) is Some implies j > 0
                && slot_index(old[ancestor(old, id, j)].children@[s]) == ancestor(old, id, (j - 1) as nat) by {
                assert(node_wf(old, root, a));
                let c = slot_index(old[a].children@[s]);
                assert(node_wf(old, root, c));
                assert(mid[a2].children@[s] == moved_slot(id, last, old[a].children@[s]));
                if c == id {
                    // only `p` has `id` as a child
                    assert(a == p);
                    if j1 > 0 {
                        lemma_chain_link(old, mid, root, id, p, (j1 - 1) as nat);
                        let b = ancestor(old, p, (j1 - 1) as nat);
                        let b2 = moved_to(id, last, b);
                        assert(mid[ancestor(mid, up, (j1 - 1) as nat)] == mid[b2]);
                        assert(mid[b2].parent == moved_ref(id, last, old[b].parent));
                        assert(node_wf(old, root, b));
                        lemma_ancestor_grows(old, root, p, (j1 - 1) as nat);
                        assert(ancestor(old, p, j1) == step_up(old, b));
                    }
                    assert(ancestor(old, id, 0) == id);
                } else {
                    assert(mid[a2].children@[s] == Some(NodeID(moved_to(id, last, c) as usize)));
                    if j1 > 0 {
                        lemma_chain_link(old, mid, root, id, p, (j1 - 1) as nat);
                        let b = ancestor(old, p, (j1 - 1) as nat);
                        assert(moved_to(id, last, c) == moved_to(id, last, b));
                        assert(ancestor(old, id, j1) == b);
                    }
                }
            }
        }
    }
    // their tags are gone
    assert forall|j: nat, i: int| j < k + 1 && 0 <= i < fin.len() implies (#[trigger] fin[i]).tag != (#[trigger] old[ancestor(old, id, j)]).tag by {
        assert(tag_from(fin[i], mid));
        let x = choose|x: int| 0 <= x < mid.len() && mid[x].tag == fin[i].tag;
        let y = moved_from(id, last, x);
        assert(mid[x].tag == old[y].tag);
        if j == 0 {
            assert(ancestor(old, id, 0) == id);
            assert(y != id);
        } else {
            let j1 = (j - 1) as nat;
            lemma_chain_link(old, mid, root, id, p, j1);
            let a = ancestor(old, p, j1);
            assert(mid[moved_to(id, last, a)].tag == old[a].tag);
            assert(fin[i].tag != mid[ancestor(mid, up, j1)].tag);
        }
    }
    // every other node survives
    assert forall|x: int| 0 <= x < old.len() && !in_chain(old, id, k + 1, x) implies #[trigger] survives(old[x], fin) by {
        assert(ancestor(old, id, 0) == id);
        assert(x != id);
        let x2 = moved_to(id, last, x);
        assert(moved_from(id, last, x2) == x);
        assert(mid[x2].tag == old[x].tag && mid[x2].bcube == old[x].bcube && mid[x2].contents == old[x].contents);
        assert(!in_chain(mid, up, k, x2)) by {
            if in_chain(mid, up, k, x2) {
                let j = choose|j: nat| j < k && #[trigger] ancestor(mid, up, j) == x2;
                lemma_chain_link(old, mid, root, id, p, j);
                assert(ancestor(old, p, j) == x);
                assert(ancestor(old, id, j + 1) == x);
            }
        }
        assert(survives(mid[x2], fin));
    }
    assert forall|i: int| 0 <= i < fin.len() implies #[trigger] tag_from(fin[i], old) by {
        assert(tag_from(fin[i], mid));
        let x = choose|x: int| 0 <= x < mid.len() && mid[x].tag == fin[i].tag;
        let y = moved_from(id, last, x);
        assert(mid[x].tag == old[y].tag);
    }
}

/// Where the nodes of the first `j` steps up from `i` keep their parents, the
/// first `j` steps up lead to the same nodes.
pub(crate) proof fn lemma_ancestor_prefix(a: Seq<Node>, b: Seq<Node>, i: int, j: nat)
    requires
        a.len() <= b.len(),
        forall|jj: nat|
            jj < j ==> 0 <= #[trigger] ancestor(a, i, jj) < a.len() && b[ancestor(a, i, jj)].parent
                == a[ancestor(a, i, jj)].parent,
    ensures
        forall|jj: nat| jj <= j ==> #[trigger] ancestor(b, i, jj) == ancestor(a, i, jj),
    decreases j,
{
    if j > 0 {
        let j1 = (j - 1) as nat;
        lemma_ancestor_prefix(a, b, i, j1);
        assert(0 <= ancestor(a, i, j1) < a.len());
        assert forall|jj: nat| jj <= j implies #[trigger] ancestor(b, i, jj) == ancestor(a, i, jj) by {
            if jj == j {
                assert(ancestor(b, i, j1) == ancestor(a, i, j1));
            }
        }
    } else {
        assert forall|jj: nat| jj <= j implies #[trigger] ancestor(b, i, jj) == ancestor(a, i, jj) by {
            assert(jj == 0);
        }
    }
}

/// Climbing from any node reaches the root, which is no node's descendant:
/// the first `j0` steps up stay below it.
pub(crate) proof fn lemma_reach_root(nodes: Seq<Node>, root: int, x: int)
    requires
        nodes_wf(nodes, root),
        0 <= x < nodes.len(),
    ensures
        exists|j0: nat| ancestor(nodes, x, j0) == root && forall|jj: nat| jj < j0 ==> #[trigger] ancestor(nodes, x, jj) != root,
    decreases nodes[root].bcube.half_edge - nodes[x].bcube.half_edge,
{
    assert(node_wf(nodes, root, x));
    if x == root {
        assert(ancestor(nodes, x, 0) == root);
    } else {
        let p = slot_index(nodes[x].parent);
        assert(node_wf(nodes, root, p));
        lemma_reach_root(nodes, root, p);
        let j1 = choose|j1: nat| ancestor(nodes, p, j1) == root && forall|jj: nat| jj < j1 ==> #[trigger] ancestor(nodes, p, jj) != root;
        lemma_ancestor_inner(nodes, x, j1);
        assert(step_up(nodes, x) == p);
        assert forall|jj: nat| jj < j1 + 1 implies #[trigger] ancestor(nodes, x, jj) != root by {
            if jj > 0 {
                lemma_ancestor_inner(nodes, x, (jj - 1) as nat);
            }
        }
    }
}

/// `a + b` steps up are `b` steps up from the node `a` steps up.
pub(crate) proof fn lemma_ancestor_add(nodes: Seq<Node>, i: int, a: nat, b: nat)
    ensures
        ancestor(nodes, i, a + b) == ancestor(nodes, ancestor(nodes, i, a), b),
    decreases b,
{
    if b > 0 {
        lemma_ancestor_add(nodes, i, a, (b - 1) as nat);
        assert(ancestor(nodes, i, a + b) == step_up(nodes, ancestor(nodes, i, (a + b - 1) as nat)));
    }
}

/// Climbing from a node with no parent stays there.
pub(crate) proof fn lemma_ancestor_stuck(nodes: Seq<Node>, i: int, m: nat)
    requires
        step_up(nodes, i) == i,
    ensures
        ancestor(nodes, i, m) == i,
    decreases m,
{
    if m > 0 {
        lemma_ancestor_stuck(nodes, i, (m - 1) as nat);
    }
}

/// After a search that kept the old nodes' cubes, and their parents but the
/// old root's, every old node on a chain up from an old node `cur` was on
/// that chain before, at most as many steps up.
pub(crate) proof fn lemma_old_on_chain(old: Seq<Node>, mid: Seq<Node>, root: int, mroot: int, cur: int, j: nat)
    requires
        nodes_wf(old, root),
        nodes_wf(mid, mroot),
        mid.len() >= old.len(),
        forall|i: int| 0 <= i < old.len() ==> (#[trigger] mid[i]).bcube == old[i].bcube,
        forall|i: int| 0 <= i < old.len() && i != root ==> (#[trigger] mid[i]).parent == old[i].parent,
        0 <= cur < old.len(),
        0 <= ancestor(mid, cur, j) < old.len(),
    ensures
        exists|j2: nat| j2 <= j && #[trigger] ancestor(old, cur, j2) == ancestor(mid, cur, j),
{
    lemma_reach_root(old, root, cur);
    let j0 = choose|j0: nat| ancestor(old, cur, j0) == root && forall|jj: nat| jj < j0 ==> #[trigger] ancestor(old, cur, jj) != root;
    assert forall|jj: nat| jj < j0 implies 0 <= #[trigger] ancestor(old, cur, jj) < old.len()
        && mid[ancestor(old, cur, jj)].parent == old[ancestor(old, cur, jj)].parent by {
        lemma_ancestor_grows(old, root, cur, jj);
    }
    lemma_ancestor_prefix(old, mid, cur, j0);
    if j <= j0 {
        assert(ancestor(old, cur, j) == ancestor(mid, cur, j));
    } else {
        let m = (j - j0) as nat;
        lemma_ancestor_add(mid, cur, j0, m);
        assert(ancestor(mid, cur, j0) == root);
        assert(node_wf(old, root, root));
        if step_up(mid, root) == root {
            lemma_ancestor_stuck(mid, root, m);
            assert(ancestor(old, cur, j0) == ancestor(mid, cur, j));
        } else {
            let q = step_up(mid, root);
            assert(node_wf(mid, mroot, root));
            assert(node_wf(mid, mroot, q));
            lemma_ancestor_inner(mid, root, (m - 1) as nat);
            lemma_ancestor_grows(mid, mroot, q, (m - 1) as nat);
            let y = ancestor(mid, cur, j);
            assert(node_wf(old, root, y));
            assert(false);
        }
    }
}

} // verus!
