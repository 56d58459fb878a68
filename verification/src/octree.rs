//! Sparse voxel octree over a cubic domain of side `2^log_extent`.
//!
//! Nodes live in a growable arena addressed by integer index, with a free-slot
//! list for reuse.  A node is either a `Leaf` carrying one voxel value or a
//! `Branch` carrying exactly eight child indices, one per octant: bit 0 of the
//! octant index selects the X half, bit 1 the Y half, bit 2 the Z half.
//!
//! The tree keeps the compression invariant: no branch ever has eight leaf
//! children sharing one value; mutation re-collapses such branches at once.

use vstd::prelude::*;
use vstd::arithmetic::power2::pow2;

verus! {

/// Sentinel voxel value standing for "empty/air"; also what queries outside
/// the domain return.
pub const EMPTY_VOXEL: u32 = 0xFFFF_FFFF;

/// One arena slot: a leaf with a voxel value, or a branch with eight children.
#[derive(Clone, Copy, Debug, PartialEq, Eq)]
pub enum Node {
    Leaf(u32),
    Branch([usize; 8]),
}

/// Child `k`'s arena index, read off the branch node at `i`.
pub open spec fn child(nodes: Seq<Node>, i: int, k: int) -> int {
    nodes[i]->Branch_0[k] as int
}

/// The set of arena indices that make up the subtree rooted at `i`, read to
/// depth `d`.  Meaningful under `wf_node(nodes, i, d)`.
pub open spec fn subtree(nodes: Seq<Node>, i: int, d: nat) -> Set<int>
    decreases d,
{
    if 0 <= i < nodes.len() && nodes[i] is Branch && d > 0 {
        set!{i}.union(subtree(nodes, child(nodes, i, 0), (d - 1) as nat)).union(
            subtree(nodes, child(nodes, i, 1), (d - 1) as nat),
        ).union(subtree(nodes, child(nodes, i, 2), (d - 1) as nat)).union(
            subtree(nodes, child(nodes, i, 3), (d - 1) as nat),
        ).union(subtree(nodes, child(nodes, i, 4), (d - 1) as nat)).union(
            subtree(nodes, child(nodes, i, 5), (d - 1) as nat),
        ).union(subtree(nodes, child(nodes, i, 6), (d - 1) as nat)).union(
            subtree(nodes, child(nodes, i, 7), (d - 1) as nat),
        )
    } else {
        set!{i}
    }
}

/// Well-formedness of the subtree rooted at `i` when read to depth `d`:
/// indices are in bounds, branches only occur above depth 0, and the eight
/// child subtrees are pairwise disjoint and do not contain their parent.
pub open spec fn wf_node(nodes: Seq<Node>, i: int, d: nat) -> bool
    decreases d,
{
    &&& 0 <= i < nodes.len()
    &&& nodes[i] is Branch ==> {
        &&& d > 0
        &&& forall|k: int|
            0 <= k < 8 ==> wf_node(nodes, #[trigger] child(nodes, i, k), (d - 1) as nat)
        &&& forall|k1: int, k2: int|
            0 <= k1 < 8 && 0 <= k2 < 8 && k1 != k2 ==> subtree(
                nodes,
                #[trigger] child(nodes, i, k1),
                (d - 1) as nat,
            ).disjoint(subtree(nodes, #[trigger] child(nodes, i, k2), (d - 1) as nat))
        &&& forall|k: int|
            0 <= k < 8 ==> !subtree(nodes, #[trigger] child(nodes, i, k), (d - 1) as nat).contains(
                i,
            )
    }
}

/// The octant index (0..8) of local coordinates within a cube whose half
/// extent is `h`: bit 0 for X, bit 1 for Y, bit 2 for Z.
pub open spec fn octant_index(h: int, x: int, y: int, z: int) -> int {
    (if x >= h {
        1int
    } else {
        0int
    }) + (if y >= h {
        2int
    } else {
        0int
    }) + (if z >= h {
        4int
    } else {
        0int
    })
}

/// A coordinate translated into the frame of the child octant it falls in.
pub open spec fn local_coord(h: int, c: int) -> int {
    if c >= h {
        c - h
    } else {
        c
    }
}

/// The voxel value the subtree rooted at `i` holds at local coordinates
/// `(x, y, z)`, reading at most `d` levels down.
pub open spec fn value_at(nodes: Seq<Node>, i: int, d: nat, x: int, y: int, z: int) -> u32
    decreases d,
{
    if 0 <= i < nodes.len() {
        if nodes[i] is Leaf {
            nodes[i]->Leaf_0
        } else if d == 0 {
            EMPTY_VOXEL
        } else {
            let h = pow2((d - 1) as nat) as int;
            value_at(
                nodes,
                child(nodes, i, octant_index(h, x, y, z)),
                (d - 1) as nat,
                local_coord(h, x),
                local_coord(h, y),
                local_coord(h, z),
            )
        }
    } else {
        EMPTY_VOXEL
    }
}

/// A branch whose eight children are all leaves carrying one identical value:
/// the configuration that `merge_branch` collapses.
pub open spec fn mergeable(nodes: Seq<Node>, i: int) -> bool {
    &&& nodes[child(nodes, i, 0)] is Leaf
    &&& forall|k: int|
        0 <= k < 8 ==> nodes[#[trigger] child(nodes, i, k)] == nodes[child(nodes, i, 0)]
}

/// A branch at `i` whose eight children are distinct leaf slots all
/// carrying value `v` and none aliasing `i`: what `split_leaf` builds.
pub open spec fn fresh_branch_of(nodes: Seq<Node>, i: int, v: u32) -> bool {
    &&& 0 <= i < nodes.len()
    &&& nodes[i] is Branch
    &&& forall|k: int|
        0 <= k < 8 ==> {
            &&& 0 <= #[trigger] child(nodes, i, k)
            &&& child(nodes, i, k) < nodes.len()
            &&& nodes[child(nodes, i, k)] == Node::Leaf(v)
            &&& child(nodes, i, k) != i
        }
    &&& forall|k1: int, k2: int|
        0 <= k1 < 8 && 0 <= k2 < 8 && k1 != k2 ==> #[trigger] child(nodes, i, k1)
            != #[trigger] child(nodes, i, k2)
}

/// The compression invariant: no branch in the subtree has eight leaf
/// children sharing one value.
pub open spec fn compressed(nodes: Seq<Node>, i: int, d: nat) -> bool
    decreases d,
{
    if 0 <= i < nodes.len() && nodes[i] is Branch {
        &&& d > 0
        &&& !mergeable(nodes, i)
        &&& forall|k: int|
            0 <= k < 8 ==> compressed(nodes, #[trigger] child(nodes, i, k), (d - 1) as nat)
    } else {
        true
    }
}

/// Membership of `c` in the half-open interval `[lo, lo + len)`.
pub open spec fn in_interval(lo: int, len: int, c: int) -> bool {
    lo <= c && c < lo + len
}

/// A local child coordinate translated back into the parent frame: the upper
/// half of an axis starts at `h`.
pub open spec fn axis_sel(upper: bool, c: int, h: int) -> int {
    if upper {
        c + h
    } else {
        c
    }
}

/// Membership of `(x, y, z)` in the box at `(ox, oy, oz)` with extents
/// `(ex, ey, ez)`.
pub open spec fn in_box(
    ox: int,
    oy: int,
    oz: int,
    ex: int,
    ey: int,
    ez: int,
    x: int,
    y: int,
    z: int,
) -> bool {
    in_interval(ox, ex, x) && in_interval(oy, ey, y) && in_interval(oz, ez, z)
}

/// Pre-state obligations for painting the subtree at `i`: shape,
/// compression, and a sound free list that avoids the subtree.
spec fn paint_pre(pre: Octree, i: int, d: nat) -> bool {
    &&& wf_node(pre.nodes@, i, d)
    &&& compressed(pre.nodes@, i, d)
    &&& free_ok(pre.nodes@, pre.free_nodes@)
    &&& forall|fi: int|
        0 <= fi < pre.free_nodes@.len() ==> !subtree(pre.nodes@, i, d).contains(
            #[trigger] (pre.free_nodes@[fi] as int),
        )
}

/// Everything a paint of the subtree at `i` guarantees: shape and
/// compression are restored, untouched slots and the free list are tracked,
/// and the subtree's values change exactly on the box.
spec fn paint_effect(
    pre: Octree,
    post: Octree,
    i: int,
    d: nat,
    ox: int,
    oy: int,
    oz: int,
    ex: int,
    ey: int,
    ez: int,
    voxel: u32,
) -> bool {
    &&& post.root == pre.root
    &&& post.log_extent == pre.log_extent
    &&& post.nodes@.len() >= pre.nodes@.len()
    &&& wf_node(post.nodes@, i, d)
    &&& compressed(post.nodes@, i, d)
    &&& forall|t: int|
        #![trigger post.nodes@[t]]
        0 <= t < pre.nodes@.len() && !subtree(pre.nodes@, i, d).contains(t)
            && !pre.free_nodes@.contains(t as usize) ==> post.nodes@[t] == pre.nodes@[t]
    &&& forall|t: int|
        #[trigger] subtree(post.nodes@, i, d).contains(t) ==> (subtree(pre.nodes@, i, d).contains(t)
            || pre.free_nodes@.contains(t as usize) || pre.nodes@.len() <= t < post.nodes@.len())
    &&& free_ok(post.nodes@, post.free_nodes@)
    &&& forall|f: usize|
        #[trigger] post.free_nodes@.contains(f) ==> (pre.free_nodes@.contains(f) || subtree(
            pre.nodes@,
            i,
            d,
        ).contains(f as int) || pre.nodes@.len() <= f < post.nodes@.len())
    &&& forall|f: usize|
        #[trigger] post.free_nodes@.contains(f) ==> !subtree(post.nodes@, i, d).contains(f as int)
    &&& forall|x: int, y: int, z: int|
        0 <= x < pow2(d) && 0 <= y < pow2(d) && 0 <= z < pow2(d) ==> #[trigger] value_at(
            post.nodes@,
            i,
            d,
            x,
            y,
            z,
        ) == (if in_box(ox, oy, oz, ex, ey, ez, x, y, z) {
            voxel
        } else {
            value_at(pre.nodes@, i, d, x, y, z)
        })
}

/// The invariant of the per-octant loop inside `set_descend`: children
/// `0..k` of the branch at `i` are painted, the rest still agree with the
/// snapshot `mid` taken right after the node was split.
spec fn paint_loop_inv(
    mid: Octree,
    cur: Octree,
    i: int,
    k: int,
    d: nat,
    ox: int,
    oy: int,
    oz: int,
    ex: int,
    ey: int,
    ez: int,
    voxel: u32,
) -> bool {
    let dm = (d - 1) as nat;
    let h = pow2(dm) as int;
    &&& 0 <= k <= 8
    &&& 1 <= d <= 63
    &&& ox + ex <= pow2(d)
    &&& oy + ey <= pow2(d)
    &&& oz + ez <= pow2(d)
    &&& 0 <= i < mid.nodes@.len()
    &&& mid.nodes@[i] is Branch
    &&& wf_node(mid.nodes@, i, d)
    &&& cur.root == mid.root
    &&& cur.log_extent == mid.log_extent
    &&& cur.nodes@.len() >= mid.nodes@.len()
    &&& i < cur.nodes@.len()
    &&& cur.nodes@[i] == mid.nodes@[i]
    &&& forall|j: int|
        0 <= j < 8 ==> wf_node(cur.nodes@, #[trigger] child(mid.nodes@, i, j), dm) && compressed(
            cur.nodes@,
            child(mid.nodes@, i, j),
            dm,
        )
    &&& forall|j: int, t: int|
        k <= j < 8 && #[trigger] subtree(mid.nodes@, child(mid.nodes@, i, j), dm).contains(t)
            ==> cur.nodes@[t] == mid.nodes@[t]
    &&& forall|j: int|
        k <= j < 8 ==> subtree(cur.nodes@, #[trigger] child(mid.nodes@, i, j), dm) == subtree(
            mid.nodes@,
            child(mid.nodes@, i, j),
            dm,
        )
    &&& forall|j: int, lx: int, ly: int, lz: int|
        0 <= j < 8 && 0 <= lx < pow2(dm) && 0 <= ly < pow2(dm) && 0 <= lz < pow2(dm)
            ==> #[trigger] value_at(cur.nodes@, child(mid.nodes@, i, j), dm, lx, ly, lz) == (if j
            < k && in_box(
            ox,
            oy,
            oz,
            ex,
            ey,
            ez,
            axis_sel(j % 2 == 1, lx, h),
            axis_sel((j / 2) % 2 == 1, ly, h),
            axis_sel(j / 4 == 1, lz, h),
        ) {
            voxel
        } else {
            value_at(mid.nodes@, child(mid.nodes@, i, j), dm, lx, ly, lz)
        })
    &&& forall|j1: int, j2: int|
        0 <= j1 < 8 && 0 <= j2 < 8 && j1 != j2 ==> subtree(
            cur.nodes@,
            #[trigger] child(mid.nodes@, i, j1),
            dm,
        ).disjoint(subtree(cur.nodes@, #[trigger] child(mid.nodes@, i, j2), dm))
    &&& forall|j: int|
        0 <= j < 8 ==> !subtree(cur.nodes@, #[trigger] child(mid.nodes@, i, j), dm).contains(i)
    &&& free_ok(cur.nodes@, cur.free_nodes@)
    &&& forall|f: usize, j: int|
        #![trigger cur.free_nodes@.contains(f), child(mid.nodes@, i, j)]
        cur.free_nodes@.contains(f) && 0 <= j < 8 ==> !subtree(
            cur.nodes@,
            child(mid.nodes@, i, j),
            dm,
        ).contains(f as int)
    &&& forall|fi: int| 0 <= fi < cur.free_nodes@.len() ==> #[trigger] cur.free_nodes@[fi] != i
    &&& forall|f: usize|
        #[trigger] cur.free_nodes@.contains(f) ==> (mid.free_nodes@.contains(f) || (exists|j: int|
            0 <= j < 8 && subtree(mid.nodes@, #[trigger] child(mid.nodes@, i, j), dm).contains(
                f as int,
            )) || mid.nodes@.len() <= f < cur.nodes@.len())
    &&& forall|j: int, t: int|
        0 <= j < 8 && #[trigger] subtree(cur.nodes@, child(mid.nodes@, i, j), dm).contains(t) ==> (
        (exists|j2: int|
            0 <= j2 < 8 && subtree(mid.nodes@, #[trigger] child(mid.nodes@, i, j2), dm).contains(t))
            || mid.free_nodes@.contains(t as usize) || mid.nodes@.len() <= t < cur.nodes@.len())
    &&& forall|t: int|
        #![trigger cur.nodes@[t], mid.nodes@[t]]
        0 <= t < mid.nodes@.len() && t != i && !mid.free_nodes@.contains(t as usize) && (forall|
            j: int,
        |
            0 <= j < 8 ==> !subtree(mid.nodes@, #[trigger] child(mid.nodes@, i, j), dm).contains(t))
            ==> cur.nodes@[t] == mid.nodes@[t]
}

/// The free-slot list holds in-bounds indices without repetition.
pub open spec fn free_ok(nodes: Seq<Node>, free: Seq<usize>) -> bool {
    &&& forall|fi: int| 0 <= fi < free.len() ==> (#[trigger] free[fi]) < nodes.len()
    &&& forall|fi: int, fj: int| 0 <= fi < fj < free.len() ==> free[fi] != free[fj]
}

/// First-visited leaf descendant of `i`: the value reported when a coarse
/// query stops at a branch.
pub open spec fn first_leaf(nodes: Seq<Node>, i: int, d: nat) -> u32
    decreases d,
{
    if 0 <= i < nodes.len() {
        if nodes[i] is Leaf {
            nodes[i]->Leaf_0
        } else if d == 0 {
            EMPTY_VOXEL
        } else {
            first_leaf(nodes, child(nodes, i, 0), (d - 1) as nat)
        }
    } else {
        EMPTY_VOXEL
    }
}

/// The axis-aligned boxes reported by `debug_boxes`: one `(corner, side)`
/// pair per non-empty leaf, visited in octant order.
pub open spec fn boxes_of(
    nodes: Seq<Node>,
    i: int,
    d: nat,
    cx: int,
    cy: int,
    cz: int,
) -> Seq<([usize; 3], usize)>
    decreases d, 9int,
{
    if 0 <= i < nodes.len() {
        if nodes[i] is Leaf {
            if nodes[i]->Leaf_0 == EMPTY_VOXEL {
                Seq::empty()
            } else {
                seq![([cx as usize, cy as usize, cz as usize], pow2(d) as usize)]
            }
        } else if d == 0 {
            Seq::empty()
        } else {
            boxes_of_children(nodes, i, d, cx, cy, cz, 0)
        }
    } else {
        Seq::empty()
    }
}

/// The boxes of children `k..8` of the branch at `i`, in octant order.
pub open spec fn boxes_of_children(
    nodes: Seq<Node>,
    i: int,
    d: nat,
    cx: int,
    cy: int,
    cz: int,
    k: int,
) -> Seq<([usize; 3], usize)>
    decreases d, 8int - k,
{
    if 0 <= k < 8 && d > 0 {
        let h = pow2((d - 1) as nat) as int;
        boxes_of(
            nodes,
            child(nodes, i, k),
            (d - 1) as nat,
            cx + (if k % 2 == 1 {
                h
            } else {
                0int
            }),
            cy + (if (k / 2) % 2 == 1 {
                h
            } else {
                0int
            }),
            cz + (if k / 4 == 1 {
                h
            } else {
                0int
            }),
        ) + boxes_of_children(nodes, i, d, cx, cy, cz, k + 1)
    } else {
        Seq::empty()
    }
}

/// Like `value_at`, but stops descending once at most `cut` levels remain and
/// reports the first-visited leaf descendant from there.
pub open spec fn sample_value(
    nodes: Seq<Node>,
    i: int,
    d: nat,
    cut: nat,
    x: int,
    y: int,
    z: int,
) -> u32
    decreases d,
{
    if 0 <= i < nodes.len() {
        if nodes[i] is Leaf {
            nodes[i]->Leaf_0
        } else if d <= cut {
            first_leaf(nodes, i, d)
        } else {
            let h = pow2((d - 1) as nat) as int;
            sample_value(
                nodes,
                child(nodes, i, octant_index(h, x, y, z)),
                (d - 1) as nat,
                cut,
                local_coord(h, x),
                local_coord(h, y),
                local_coord(h, z),
            )
        }
    } else {
        EMPTY_VOXEL
    }
}

/// Sparse voxel octree: node arena, free-slot list, root index and the
/// base-2 logarithm of the cubic domain's side length.
#[derive(Clone, Debug, PartialEq, Eq)]
pub struct Octree {
    nodes: Vec<Node>,
    free_nodes: Vec<usize>,
    root: usize,
    log_extent: usize,
}

/// Every index in a well-formed subtree is in bounds, and the subtree
/// contains its own root.
proof fn lemma_subtree_bounds(nodes: Seq<Node>, i: int, d: nat)
    requires
        wf_node(nodes, i, d),
    ensures
        subtree(nodes, i, d).contains(i),
        forall|t: int| #[trigger] subtree(nodes, i, d).contains(t) ==> 0 <= t < nodes.len(),
    decreases d,
{
    if nodes[i] is Branch && d > 0 {
        lemma_subtree_bounds(nodes, child(nodes, i, 0), (d - 1) as nat);
        lemma_subtree_bounds(nodes, child(nodes, i, 1), (d - 1) as nat);
        lemma_subtree_bounds(nodes, child(nodes, i, 2), (d - 1) as nat);
        lemma_subtree_bounds(nodes, child(nodes, i, 3), (d - 1) as nat);
        lemma_subtree_bounds(nodes, child(nodes, i, 4), (d - 1) as nat);
        lemma_subtree_bounds(nodes, child(nodes, i, 5), (d - 1) as nat);
        lemma_subtree_bounds(nodes, child(nodes, i, 6), (d - 1) as nat);
        lemma_subtree_bounds(nodes, child(nodes, i, 7), (d - 1) as nat);
    }
}

/// A child's subtree is part of its parent's subtree.
proof fn lemma_subtree_child_subset(nodes: Seq<Node>, i: int, d: nat, k: int)
    requires
        wf_node(nodes, i, d),
        nodes[i] is Branch,
        0 <= k < 8,
    ensures
        forall|t: int|
            #[trigger] subtree(nodes, child(nodes, i, k), (d - 1) as nat).contains(t) ==> subtree(
                nodes,
                i,
                d,
            ).contains(t),
{
    assert(subtree(nodes, i, d) == set!{i}.union(
        subtree(nodes, child(nodes, i, 0), (d - 1) as nat),
    ).union(subtree(nodes, child(nodes, i, 1), (d - 1) as nat)).union(
        subtree(nodes, child(nodes, i, 2), (d - 1) as nat),
    ).union(subtree(nodes, child(nodes, i, 3), (d - 1) as nat)).union(
        subtree(nodes, child(nodes, i, 4), (d - 1) as nat),
    ).union(subtree(nodes, child(nodes, i, 5), (d - 1) as nat)).union(
        subtree(nodes, child(nodes, i, 6), (d - 1) as nat),
    ).union(subtree(nodes, child(nodes, i, 7), (d - 1) as nat)));
}

/// Frame lemma: a subtree is insensitive to changes outside its own index
/// set.  Any arena that agrees with `n1` on `subtree(n1, i, d)` (and is at
/// least as long) carries the same subtree, the same values, and the same
/// well-formedness and compression facts.
proof fn lemma_frame(n1: Seq<Node>, n2: Seq<Node>, i: int, d: nat)
    requires
        wf_node(n1, i, d),
        n2.len() >= n1.len(),
        forall|t: int| #[trigger] subtree(n1, i, d).contains(t) ==> n2[t] == n1[t],
    ensures
        wf_node(n2, i, d),
        subtree(n2, i, d) == subtree(n1, i, d),
        forall|x: int, y: int, z: int|
            value_at(n2, i, d, x, y, z) == value_at(n1, i, d, x, y, z),
        compressed(n1, i, d) ==> compressed(n2, i, d),
    decreases d,
{
    lemma_subtree_bounds(n1, i, d);
    assert(subtree(n1, i, d).contains(i));
    assert(n2[i] == n1[i]);
    if n1[i] is Branch {
        assert forall|k: int| 0 <= k < 8 implies #[trigger] child(n2, i, k) == child(n1, i, k) by {}
        assert forall|k: int| 0 <= k < 8 implies wf_node(
            n2,
            #[trigger] child(n1, i, k),
            (d - 1) as nat,
        ) && subtree(n2, child(n1, i, k), (d - 1) as nat) == subtree(
            n1,
            child(n1, i, k),
            (d - 1) as nat,
        ) && (forall|x: int, y: int, z: int|
            #[trigger] value_at(n2, child(n1, i, k), (d - 1) as nat, x, y, z) == value_at(
                n1,
                child(n1, i, k),
                (d - 1) as nat,
                x,
                y,
                z,
            )) && (compressed(n1, child(n1, i, k), (d - 1) as nat) ==> compressed(
            n2,
            child(n1, i, k),
            (d - 1) as nat,
        )) by {
            lemma_subtree_child_subset(n1, i, d, k);
            lemma_frame(n1, n2, child(n1, i, k), (d - 1) as nat);
        }
        assert(subtree(n2, i, d) =~= subtree(n1, i, d));
        assert forall|x: int, y: int, z: int|
            value_at(n2, i, d, x, y, z) == value_at(n1, i, d, x, y, z) by {
            let h = pow2((d - 1) as nat) as int;
            let k = octant_index(h, x, y, z);
            assert(0 <= k < 8);
            assert(value_at(
                n2,
                child(n1, i, k),
                (d - 1) as nat,
                local_coord(h, x),
                local_coord(h, y),
                local_coord(h, z),
            ) == value_at(
                n1,
                child(n1, i, k),
                (d - 1) as nat,
                local_coord(h, x),
                local_coord(h, y),
                local_coord(h, z),
            ));
        }
        if compressed(n1, i, d) {
            assert forall|k: int| 0 <= k < 8 implies n2[#[trigger] child(n1, i, k)] == n1[child(
                n1,
                i,
                k,
            )] by {
                lemma_subtree_bounds(n1, child(n1, i, k), (d - 1) as nat);
                lemma_subtree_child_subset(n1, i, d, k);
            }
            assert(!mergeable(n2, i));
        }
    } else {
        assert(subtree(n2, i, d) =~= subtree(n1, i, d));
    }
}

/// A freshly split branch is well-formed at every positive depth, its
/// subtree is exactly itself plus its eight children, and it holds `v`
/// everywhere.
proof fn lemma_fresh_branch(nodes: Seq<Node>, i: int, v: u32, d: nat)
    requires
        fresh_branch_of(nodes, i, v),
        d >= 1,
    ensures
        wf_node(nodes, i, d),
        forall|t: int|
            #[trigger] subtree(nodes, i, d).contains(t) <==> (t == i || exists|k: int|
                0 <= k < 8 && t == #[trigger] child(nodes, i, k)),
        forall|x: int, y: int, z: int| #[trigger] value_at(nodes, i, d, x, y, z) == v,
{
    let dm = (d - 1) as nat;
    assert forall|k: int| 0 <= k < 8 implies wf_node(
        nodes,
        #[trigger] child(nodes, i, k),
        dm,
    ) && subtree(nodes, child(nodes, i, k), dm) =~= set!{child(nodes, i, k)} by {}
    assert(subtree(nodes, i, d) == set!{i}.union(subtree(nodes, child(nodes, i, 0), dm)).union(
        subtree(nodes, child(nodes, i, 1), dm),
    ).union(subtree(nodes, child(nodes, i, 2), dm)).union(
        subtree(nodes, child(nodes, i, 3), dm),
    ).union(subtree(nodes, child(nodes, i, 4), dm)).union(
        subtree(nodes, child(nodes, i, 5), dm),
    ).union(subtree(nodes, child(nodes, i, 6), dm)).union(
        subtree(nodes, child(nodes, i, 7), dm)));
    assert forall|x: int, y: int, z: int| #[trigger] value_at(nodes, i, d, x, y, z) == v by {
        let h = pow2((d - 1) as nat) as int;
        let k = octant_index(h, x, y, z);
        assert(0 <= k < 8);
        let ck = child(nodes, i, k);
        assert(nodes[ck] == Node::Leaf(v));
        assert(value_at(nodes, ck, dm, local_coord(h, x), local_coord(h, y), local_coord(h, z))
            == v);
    }
}

/// Eight per-octant box lists, concatenated left to right, make up the
/// branch's box list.
#[verifier::rlimit(100)]
proof fn lemma_boxes_assemble(
    nodes: Seq<Node>,
    i: int,
    d: nat,
    cx: int,
    cy: int,
    cz: int,
    a0: Seq<([usize; 3], usize)>,
    r: Seq<([usize; 3], usize)>,
)
    requires
        0 <= i < nodes.len(),
        nodes[i] is Branch,
        d >= 1,
        r == a0 + boxes_of(nodes, child(nodes, i, 0), (d - 1) as nat, cx, cy, cz) + boxes_of(
            nodes,
            child(nodes, i, 1),
            (d - 1) as nat,
            cx + pow2((d - 1) as nat) as int,
            cy,
            cz,
        ) + boxes_of(
            nodes,
            child(nodes, i, 2),
            (d - 1) as nat,
            cx,
            cy + pow2((d - 1) as nat) as int,
            cz,
        ) + boxes_of(
            nodes,
            child(nodes, i, 3),
            (d - 1) as nat,
            cx + pow2((d - 1) as nat) as int,
            cy + pow2((d - 1) as nat) as int,
            cz,
        ) + boxes_of(
            nodes,
            child(nodes, i, 4),
            (d - 1) as nat,
            cx,
            cy,
            cz + pow2((d - 1) as nat) as int,
        ) + boxes_of(
            nodes,
            child(nodes, i, 5),
            (d - 1) as nat,
            cx + pow2((d - 1) as nat) as int,
            cy,
            cz + pow2((d - 1) as nat) as int,
        ) + boxes_of(
            nodes,
            child(nodes, i, 6),
            (d - 1) as nat,
            cx,
            cy + pow2((d - 1) as nat) as int,
            cz + pow2((d - 1) as nat) as int,
        ) + boxes_of(
            nodes,
            child(nodes, i, 7),
            (d - 1) as nat,
            cx + pow2((d - 1) as nat) as int,
            cy + pow2((d - 1) as nat) as int,
            cz + pow2((d - 1) as nat) as int,
        ),
    ensures
        r == a0 + boxes_of(nodes, i, d, cx, cy, cz),
{
    let dm = (d - 1) as nat;
    let hh = pow2(dm) as int;
    let b0 = boxes_of(nodes, child(nodes, i, 0), dm, cx, cy, cz);
    let b1 = boxes_of(nodes, child(nodes, i, 1), dm, cx + hh, cy, cz);
    let b2 = boxes_of(nodes, child(nodes, i, 2), dm, cx, cy + hh, cz);
    let b3 = boxes_of(nodes, child(nodes, i, 3), dm, cx + hh, cy + hh, cz);
    let b4 = boxes_of(nodes, child(nodes, i, 4), dm, cx, cy, cz + hh);
    let b5 = boxes_of(nodes, child(nodes, i, 5), dm, cx + hh, cy, cz + hh);
    let b6 = boxes_of(nodes, child(nodes, i, 6), dm, cx, cy + hh, cz + hh);
    let b7 = boxes_of(nodes, child(nodes, i, 7), dm, cx + hh, cy + hh, cz + hh);
    let bc = |k: int| boxes_of_children(nodes, i, d, cx, cy, cz, k);
    assert(bc(8) =~= Seq::<([usize; 3], usize)>::empty());
    assert(bc(7) == b7 + bc(8));
    assert(b7 + bc(8) =~= b7);
    assert(bc(6) == b6 + bc(7));
    assert(bc(5) == b5 + bc(6));
    assert(bc(4) == b4 + bc(5));
    assert(bc(3) == b3 + bc(4));
    assert(bc(2) == b2 + bc(3));
    assert(bc(1) == b1 + bc(2));
    assert(bc(0) == b0 + bc(1));
    assert(r =~= a0 + bc(0));
    assert(boxes_of(nodes, i, d, cx, cy, cz) == bc(0));
}

/// Intersects the axis interval `[o, o+e)` with the chosen half of an axis
/// of half extent `h` and translates it into that half's local frame.
fn axis_slice(o: u64, e: u64, h: u64, upper: bool) -> (r: (u64, u64))
    requires
        1 <= h <= 0x4000_0000_0000_0000u64,
        o + e <= 2 * h,
    ensures
        r.0 + r.1 <= h,
        forall|c: int|
            0 <= c < h ==> (#[trigger] in_interval(r.0 as int, r.1 as int, c) <==> in_interval(
                o as int,
                e as int,
                axis_sel(upper, c, h as int),
            )),
{
    let base: u64 = if upper {
        h
    } else {
        0
    };
    let lo: u64 = if o > base {
        o
    } else {
        base
    };
    let hi_raw: u64 = o + e;
    let cap: u64 = base + h;
    let hi: u64 = if hi_raw < cap {
        hi_raw
    } else {
        cap
    };
    if hi <= lo {
        (0, 0)
    } else {
        (lo - base, hi - lo)
    }
}

/// The views of an octree's vectors are no longer than `usize::MAX`.
proof fn lemma_len_bounds(t: Octree)
    ensures
        t.nodes@.len() <= usize::MAX,
        t.free_nodes@.len() <= usize::MAX,
{
    assert(t.nodes.len() == t.nodes@.len());
    assert(t.free_nodes.len() == t.free_nodes@.len());
}

/// A child subtree untouched by a paint of its sibling keeps its shape,
/// compression, index set and values.
proof fn lemma_untouched_child(
    before: Octree,
    cur: Octree,
    cj: int,
    cki: int,
    d: nat,
)
    requires
        wf_node(before.nodes@, cj, d),
        compressed(before.nodes@, cj, d),
        subtree(before.nodes@, cj, d).disjoint(subtree(before.nodes@, cki, d)),
        forall|fi: int|
            0 <= fi < before.free_nodes@.len() ==> !subtree(before.nodes@, cj, d).contains(
                #[trigger] (before.free_nodes@[fi] as int),
            ),
        cur.nodes@.len() >= before.nodes@.len(),
        forall|t: int|
            #![trigger cur.nodes@[t]]
            0 <= t < before.nodes@.len() && !subtree(before.nodes@, cki, d).contains(t)
                && !before.free_nodes@.contains(t as usize) ==> cur.nodes@[t] == before.nodes@[t],
    ensures
        wf_node(cur.nodes@, cj, d),
        compressed(cur.nodes@, cj, d),
        subtree(cur.nodes@, cj, d) == subtree(before.nodes@, cj, d),
        forall|lx: int, ly: int, lz: int|
            #[trigger] value_at(cur.nodes@, cj, d, lx, ly, lz) == value_at(
                before.nodes@,
                cj,
                d,
                lx,
                ly,
                lz,
            ),
{
    lemma_subtree_bounds(before.nodes@, cj, d);
    lemma_len_bounds(before);
    assert forall|t: int| #[trigger]
        subtree(before.nodes@, cj, d).contains(t) implies cur.nodes@[t] == before.nodes@[t] by {
        assert(0 <= t < before.nodes@.len());
        assert((t as usize) as int == t);
        assert(!before.free_nodes@.contains(t as usize)) by {
            if before.free_nodes@.contains(t as usize) {
                let fi = choose|fi: int|
                    0 <= fi < before.free_nodes@.len() && before.free_nodes@[fi] == t as usize;
                assert(!subtree(before.nodes@, cj, d).contains(
                    before.free_nodes@[fi] as int,
                ));
            }
        }
    }
    lemma_frame(before.nodes@, cur.nodes@, cj, d);
}

/// Paint step, part one: every octant other than `ki` is untouched.
#[verifier::rlimit(100)]
proof fn lemma_paint_step_frame(
    mid: Octree,
    before: Octree,
    cur: Octree,
    i: int,
    ki: int,
    d: nat,
)
    requires
        0 <= ki < 8,
        d >= 1,
        0 <= i < mid.nodes@.len(),
        mid.nodes@[i] is Branch,
        wf_node(mid.nodes@, i, d),
        before.nodes@.len() >= mid.nodes@.len(),
        cur.nodes@.len() >= before.nodes@.len(),
        i < before.nodes@.len(),
        before.nodes@[i] == mid.nodes@[i],
        forall|j: int|
            0 <= j < 8 ==> wf_node(before.nodes@, #[trigger] child(mid.nodes@, i, j), (d - 1) as nat)
                && compressed(before.nodes@, child(mid.nodes@, i, j), (d - 1) as nat),
        forall|j1: int, j2: int|
            0 <= j1 < 8 && 0 <= j2 < 8 && j1 != j2 ==> subtree(
                before.nodes@,
                #[trigger] child(mid.nodes@, i, j1),
                (d - 1) as nat,
            ).disjoint(subtree(before.nodes@, #[trigger] child(mid.nodes@, i, j2), (d - 1) as nat)),
        forall|j: int|
            0 <= j < 8 ==> !subtree(
                before.nodes@,
                #[trigger] child(mid.nodes@, i, j),
                (d - 1) as nat,
            ).contains(i),
        forall|f: usize, j: int|
            #![trigger before.free_nodes@.contains(f), child(mid.nodes@, i, j)]
            before.free_nodes@.contains(f) && 0 <= j < 8 ==> !subtree(
                before.nodes@,
                child(mid.nodes@, i, j),
                (d - 1) as nat,
            ).contains(f as int),
        forall|fi: int|
            0 <= fi < before.free_nodes@.len() ==> #[trigger] before.free_nodes@[fi] != i,
        forall|j: int, t: int|
            ki <= j < 8 && #[trigger] subtree(mid.nodes@, child(mid.nodes@, i, j), (d - 1) as nat).contains(
                t,
            ) ==> before.nodes@[t] == mid.nodes@[t],
        forall|j: int|
            ki <= j < 8 ==> subtree(before.nodes@, #[trigger] child(mid.nodes@, i, j), (d - 1) as nat)
                == subtree(mid.nodes@, child(mid.nodes@, i, j), (d - 1) as nat),
        forall|t: int|
            #![trigger cur.nodes@[t]]
            0 <= t < before.nodes@.len() && !subtree(
                before.nodes@,
                child(mid.nodes@, i, ki),
                (d - 1) as nat,
            ).contains(t) && !before.free_nodes@.contains(t as usize) ==> cur.nodes@[t]
                == before.nodes@[t],
    ensures
        cur.nodes@[i] == mid.nodes@[i],
        forall|j: int|
            0 <= j < 8 && j != ki ==> wf_node(
                cur.nodes@,
                #[trigger] child(mid.nodes@, i, j),
                (d - 1) as nat,
            ) && compressed(cur.nodes@, child(mid.nodes@, i, j), (d - 1) as nat) && subtree(
                cur.nodes@,
                child(mid.nodes@, i, j),
                (d - 1) as nat,
            ) == subtree(before.nodes@, child(mid.nodes@, i, j), (d - 1) as nat),
        forall|j: int, lx: int, ly: int, lz: int|
            0 <= j < 8 && j != ki ==> #[trigger] value_at(
                cur.nodes@,
                child(mid.nodes@, i, j),
                (d - 1) as nat,
                lx,
                ly,
                lz,
            ) == value_at(before.nodes@, child(mid.nodes@, i, j), (d - 1) as nat, lx, ly, lz),
        forall|j: int, t: int|
            ki + 1 <= j < 8 && #[trigger] subtree(mid.nodes@, child(mid.nodes@, i, j), (d - 1) as nat).contains(
                t,
            ) ==> cur.nodes@[t] == mid.nodes@[t],
{
    let dm = (d - 1) as nat;
    let cki = child(mid.nodes@, i, ki);
    lemma_subtree_bounds(before.nodes@, cki, dm);
    lemma_len_bounds(before);
    lemma_len_bounds(mid);
    assert forall|j: int| 0 <= j < 8 && j != ki implies wf_node(
        cur.nodes@,
        #[trigger] child(mid.nodes@, i, j),
        dm,
    ) && compressed(cur.nodes@, child(mid.nodes@, i, j), dm) && subtree(
        cur.nodes@,
        child(mid.nodes@, i, j),
        dm,
    ) == subtree(before.nodes@, child(mid.nodes@, i, j), dm) && (forall|lx: int, ly: int, lz: int|
        #[trigger] value_at(cur.nodes@, child(mid.nodes@, i, j), dm, lx, ly, lz) == value_at(
            before.nodes@,
            child(mid.nodes@, i, j),
            dm,
            lx,
            ly,
            lz,
        )) by {
        let cj = child(mid.nodes@, i, j);
        assert forall|fi: int|
            0 <= fi < before.free_nodes@.len() implies !subtree(before.nodes@, cj, dm).contains(
            #[trigger] (before.free_nodes@[fi] as int),
        ) by {
            assert(before.free_nodes@.contains(before.free_nodes@[fi]));
        }
        lemma_untouched_child(before, cur, cj, cki, dm);
    }
    // the parent slot itself is outside every child subtree and the free list
    assert(!subtree(before.nodes@, cki, dm).contains(i));
    assert((i as usize) as int == i);
    assert(!before.free_nodes@.contains(i as usize)) by {
        if before.free_nodes@.contains(i as usize) {
            let fi = choose|fi: int|
                0 <= fi < before.free_nodes@.len() && before.free_nodes@[fi] == i as usize;
            assert(before.free_nodes@[fi] != i);
        }
    }
    assert(cur.nodes@[i] == before.nodes@[i]);
    // untouched children still agree with mid, slot for slot
    assert forall|j: int, t: int|
        ki + 1 <= j < 8 && #[trigger] subtree(mid.nodes@, child(mid.nodes@, i, j), dm).contains(
            t,
        ) implies cur.nodes@[t] == mid.nodes@[t] by {
        let cj = child(mid.nodes@, i, j);
        assert(before.nodes@[t] == mid.nodes@[t]);
        assert(subtree(before.nodes@, cj, dm) == subtree(mid.nodes@, cj, dm));
        assert(subtree(before.nodes@, cj, dm).contains(t));
        assert(subtree(before.nodes@, cj, dm).disjoint(subtree(before.nodes@, cki, dm)));
        lemma_subtree_bounds(before.nodes@, cj, dm);
        assert(0 <= t < before.nodes@.len());
        assert((t as usize) as int == t);
        assert(!before.free_nodes@.contains(t as usize)) by {
            if before.free_nodes@.contains(t as usize) {
                assert(!subtree(before.nodes@, cj, dm).contains((t as usize) as int));
            }
        }
    }
}

/// Paint step, part two: octant `ki` now carries the box values, and its
/// subtree sits inside the tracked region.
#[verifier::rlimit(100)]
proof fn lemma_paint_step_child(
    mid: Octree,
    before: Octree,
    cur: Octree,
    i: int,
    ki: int,
    d: nat,
    ox: int,
    oy: int,
    oz: int,
    ex: int,
    ey: int,
    ez: int,
    voxel: u32,
    sx0: int,
    sy0: int,
    sz0: int,
    sx1: int,
    sy1: int,
    sz1: int,
)
    requires
        0 <= ki < 8,
        d >= 1,
        0 <= i < mid.nodes@.len(),
        mid.nodes@[i] is Branch,
        wf_node(mid.nodes@, i, d),
        before.nodes@.len() >= mid.nodes@.len(),
        cur.nodes@.len() >= before.nodes@.len(),
        subtree(before.nodes@, child(mid.nodes@, i, ki), (d - 1) as nat) == subtree(
            mid.nodes@,
            child(mid.nodes@, i, ki),
            (d - 1) as nat,
        ),
        forall|lx: int, ly: int, lz: int|
            #[trigger] value_at(before.nodes@, child(mid.nodes@, i, ki), (d - 1) as nat, lx, ly, lz)
                == value_at(mid.nodes@, child(mid.nodes@, i, ki), (d - 1) as nat, lx, ly, lz),
        forall|x: int, y: int, z: int|
            0 <= x < pow2((d - 1) as nat) && 0 <= y < pow2((d - 1) as nat) && 0 <= z < pow2(
                (d - 1) as nat,
            ) ==> #[trigger] value_at(cur.nodes@, child(mid.nodes@, i, ki), (d - 1) as nat, x, y, z)
                == (if in_box(sx0, sy0, sz0, sx1, sy1, sz1, x, y, z) {
                voxel
            } else {
                value_at(before.nodes@, child(mid.nodes@, i, ki), (d - 1) as nat, x, y, z)
            }),
        wf_node(cur.nodes@, child(mid.nodes@, i, ki), (d - 1) as nat),
        forall|t: int|
            #[trigger] subtree(cur.nodes@, child(mid.nodes@, i, ki), (d - 1) as nat).contains(t)
                ==> (subtree(before.nodes@, child(mid.nodes@, i, ki), (d - 1) as nat).contains(t)
                || before.free_nodes@.contains(t as usize) || before.nodes@.len() <= t
                < cur.nodes@.len()),
        forall|f: usize|
            #[trigger] before.free_nodes@.contains(f) ==> (mid.free_nodes@.contains(f) || (exists|
                j: int,
            |
                0 <= j < 8 && subtree(mid.nodes@, #[trigger] child(mid.nodes@, i, j), (d - 1) as nat).contains(
                    f as int,
                )) || mid.nodes@.len() <= f < before.nodes@.len()),
        forall|c: int|
            0 <= c < pow2((d - 1) as nat) ==> (#[trigger] in_interval(sx0, sx1, c) <==> in_interval(
                ox,
                ex,
                axis_sel(ki % 2 == 1, c, pow2((d - 1) as nat) as int),
            )),
        forall|c: int|
            0 <= c < pow2((d - 1) as nat) ==> (#[trigger] in_interval(sy0, sy1, c) <==> in_interval(
                oy,
                ey,
                axis_sel((ki / 2) % 2 == 1, c, pow2((d - 1) as nat) as int),
            )),
        forall|c: int|
            0 <= c < pow2((d - 1) as nat) ==> (#[trigger] in_interval(sz0, sz1, c) <==> in_interval(
                oz,
                ez,
                axis_sel(ki / 4 == 1, c, pow2((d - 1) as nat) as int),
            )),
    ensures
        forall|lx: int, ly: int, lz: int|
            0 <= lx < pow2((d - 1) as nat) && 0 <= ly < pow2((d - 1) as nat) && 0 <= lz < pow2(
                (d - 1) as nat,
            ) ==> #[trigger] value_at(
                cur.nodes@,
                child(mid.nodes@, i, ki),
                (d - 1) as nat,
                lx,
                ly,
                lz,
            ) == (if in_box(
                ox,
                oy,
                oz,
                ex,
                ey,
                ez,
                axis_sel(ki % 2 == 1, lx, pow2((d - 1) as nat) as int),
                axis_sel((ki / 2) % 2 == 1, ly, pow2((d - 1) as nat) as int),
                axis_sel(ki / 4 == 1, lz, pow2((d - 1) as nat) as int),
            ) {
                voxel
            } else {
                value_at(mid.nodes@, child(mid.nodes@, i, ki), (d - 1) as nat, lx, ly, lz)
            }),
        forall|t: int|
            #[trigger] subtree(cur.nodes@, child(mid.nodes@, i, ki), (d - 1) as nat).contains(t)
                ==> ((exists|j2: int|
                0 <= j2 < 8 && subtree(mid.nodes@, #[trigger] child(mid.nodes@, i, j2), (d - 1) as nat).contains(
                    t,
                )) || mid.free_nodes@.contains(t as usize) || mid.nodes@.len() <= t
                < cur.nodes@.len()),
{
    let dm = (d - 1) as nat;
    let h = pow2(dm) as int;
    let cki = child(mid.nodes@, i, ki);
    assert forall|lx: int, ly: int, lz: int|
        0 <= lx < pow2(dm) && 0 <= ly < pow2(dm) && 0 <= lz < pow2(dm) implies #[trigger] value_at(
        cur.nodes@,
        cki,
        dm,
        lx,
        ly,
        lz,
    ) == (if in_box(
        ox,
        oy,
        oz,
        ex,
        ey,
        ez,
        axis_sel(ki % 2 == 1, lx, h),
        axis_sel((ki / 2) % 2 == 1, ly, h),
        axis_sel(ki / 4 == 1, lz, h),
    ) {
        voxel
    } else {
        value_at(mid.nodes@, cki, dm, lx, ly, lz)
    }) by {
        assert(in_interval(sx0, sx1, lx) <==> in_interval(ox, ex, axis_sel(ki % 2 == 1, lx, h)));
        assert(in_interval(sy0, sy1, ly) <==> in_interval(
            oy,
            ey,
            axis_sel((ki / 2) % 2 == 1, ly, h),
        ));
        assert(in_interval(sz0, sz1, lz) <==> in_interval(oz, ez, axis_sel(ki / 4 == 1, lz, h)));
        assert(value_at(before.nodes@, cki, dm, lx, ly, lz) == value_at(
            mid.nodes@,
            cki,
            dm,
            lx,
            ly,
            lz,
        ));
    }
    lemma_subtree_bounds(cur.nodes@, cki, dm);
    lemma_len_bounds(cur);
    assert forall|t: int| #[trigger]
        subtree(cur.nodes@, cki, dm).contains(t) implies ((exists|j2: int|
        0 <= j2 < 8 && subtree(mid.nodes@, #[trigger] child(mid.nodes@, i, j2), dm).contains(t))
        || mid.free_nodes@.contains(t as usize) || mid.nodes@.len() <= t < cur.nodes@.len()) by {
        assert(0 <= t < cur.nodes@.len());
        assert((t as usize) as int == t);
        if subtree(before.nodes@, cki, dm).contains(t) {
            assert(subtree(mid.nodes@, child(mid.nodes@, i, ki), dm).contains(t));
        }
    }
}

/// Paint step, part three: the eight subtrees stay pairwise disjoint and
/// keep clear of the parent slot and the free list.
#[verifier::rlimit(100)]
proof fn lemma_paint_step_disjoint(
    mid: Octree,
    before: Octree,
    cur: Octree,
    i: int,
    ki: int,
    d: nat,
)
    requires
        0 <= ki < 8,
        d >= 1,
        0 <= i < mid.nodes@.len(),
        mid.nodes@[i] is Branch,
        wf_node(mid.nodes@, i, d),
        before.nodes@.len() >= mid.nodes@.len(),
        cur.nodes@.len() >= before.nodes@.len(),
        i < before.nodes@.len(),
        forall|j: int|
            0 <= j < 8 ==> wf_node(before.nodes@, #[trigger] child(mid.nodes@, i, j), (d - 1) as nat),
        forall|j1: int, j2: int|
            0 <= j1 < 8 && 0 <= j2 < 8 && j1 != j2 ==> subtree(
                before.nodes@,
                #[trigger] child(mid.nodes@, i, j1),
                (d - 1) as nat,
            ).disjoint(subtree(before.nodes@, #[trigger] child(mid.nodes@, i, j2), (d - 1) as nat)),
        forall|j: int|
            0 <= j < 8 ==> !subtree(
                before.nodes@,
                #[trigger] child(mid.nodes@, i, j),
                (d - 1) as nat,
            ).contains(i),
        forall|f: usize, j: int|
            #![trigger before.free_nodes@.contains(f), child(mid.nodes@, i, j)]
            before.free_nodes@.contains(f) && 0 <= j < 8 ==> !subtree(
                before.nodes@,
                child(mid.nodes@, i, j),
                (d - 1) as nat,
            ).contains(f as int),
        forall|fi: int|
            0 <= fi < before.free_nodes@.len() ==> #[trigger] before.free_nodes@[fi] != i,
        forall|j: int|
            0 <= j < 8 && j != ki ==> subtree(
                cur.nodes@,
                #[trigger] child(mid.nodes@, i, j),
                (d - 1) as nat,
            ) == subtree(before.nodes@, child(mid.nodes@, i, j), (d - 1) as nat),
        forall|t: int|
            #[trigger] subtree(cur.nodes@, child(mid.nodes@, i, ki), (d - 1) as nat).contains(t)
                ==> (subtree(before.nodes@, child(mid.nodes@, i, ki), (d - 1) as nat).contains(t)
                || before.free_nodes@.contains(t as usize) || before.nodes@.len() <= t
                < cur.nodes@.len()),
        free_ok(cur.nodes@, cur.free_nodes@),
        forall|f: usize|
            #[trigger] cur.free_nodes@.contains(f) ==> (before.free_nodes@.contains(f) || subtree(
                before.nodes@,
                child(mid.nodes@, i, ki),
                (d - 1) as nat,
            ).contains(f as int) || before.nodes@.len() <= f < cur.nodes@.len()),
        forall|f: usize|
            #[trigger] cur.free_nodes@.contains(f) ==> !subtree(
                cur.nodes@,
                child(mid.nodes@, i, ki),
                (d - 1) as nat,
            ).contains(f as int),
    ensures
        forall|j1: int, j2: int|
            0 <= j1 < 8 && 0 <= j2 < 8 && j1 != j2 ==> subtree(
                cur.nodes@,
                #[trigger] child(mid.nodes@, i, j1),
                (d - 1) as nat,
            ).disjoint(subtree(cur.nodes@, #[trigger] child(mid.nodes@, i, j2), (d - 1) as nat)),
        forall|j: int|
            0 <= j < 8 ==> !subtree(cur.nodes@, #[trigger] child(mid.nodes@, i, j), (d - 1) as nat).contains(
                i,
            ),
        forall|fi: int| 0 <= fi < cur.free_nodes@.len() ==> #[trigger] cur.free_nodes@[fi] != i,
        forall|f: usize, j: int|
            #![trigger cur.free_nodes@.contains(f), child(mid.nodes@, i, j)]
            cur.free_nodes@.contains(f) && 0 <= j < 8 ==> !subtree(
                cur.nodes@,
                child(mid.nodes@, i, j),
                (d - 1) as nat,
            ).contains(f as int),
{
    let dm = (d - 1) as nat;
    let cki = child(mid.nodes@, i, ki);
    lemma_subtree_bounds(before.nodes@, cki, dm);
    lemma_len_bounds(before);
    lemma_len_bounds(mid);
    // pairwise disjointness, refreshed
    assert forall|j1: int, j2: int| 0 <= j1 < 8 && 0 <= j2 < 8 && j1 != j2 implies subtree(
        cur.nodes@,
        #[trigger] child(mid.nodes@, i, j1),
        dm,
    ).disjoint(subtree(cur.nodes@, #[trigger] child(mid.nodes@, i, j2), dm)) by {
        let c1 = child(mid.nodes@, i, j1);
        let c2 = child(mid.nodes@, i, j2);
        assert forall|t: int|
            subtree(cur.nodes@, c1, dm).contains(t) && subtree(cur.nodes@, c2, dm).contains(
                t,
            ) implies false by {
            if j1 != ki && j2 != ki {
                assert(subtree(before.nodes@, c1, dm).disjoint(subtree(before.nodes@, c2, dm)));
                assert(subtree(cur.nodes@, c1, dm) == subtree(before.nodes@, c1, dm));
                assert(subtree(cur.nodes@, c2, dm) == subtree(before.nodes@, c2, dm));
            } else {
                let jo = if j1 == ki {
                    j2
                } else {
                    j1
                };
                let co = child(mid.nodes@, i, jo);
                assert(subtree(cur.nodes@, co, dm) == subtree(before.nodes@, co, dm));
                lemma_subtree_bounds(before.nodes@, co, dm);
                assert(0 <= t < before.nodes@.len());
                assert((t as usize) as int == t);
                assert(!before.free_nodes@.contains(t as usize)) by {
                    if before.free_nodes@.contains(t as usize) {
                        assert(!subtree(before.nodes@, co, dm).contains((t as usize) as int));
                    }
                }
                assert(subtree(before.nodes@, co, dm).disjoint(subtree(before.nodes@, cki, dm)));
                assert(subtree(cur.nodes@, cki, dm).contains(t));
                assert(subtree(before.nodes@, cki, dm).contains(t) || before.free_nodes@.contains(
                    t as usize,
                ) || before.nodes@.len() <= t < cur.nodes@.len());
            }
        }
    }
    // the parent slot is in no child subtree
    assert forall|j: int| 0 <= j < 8 implies !subtree(
        cur.nodes@,
        #[trigger] child(mid.nodes@, i, j),
        dm,
    ).contains(i) by {
        if j != ki {
            assert(subtree(cur.nodes@, child(mid.nodes@, i, j), dm) == subtree(
                before.nodes@,
                child(mid.nodes@, i, j),
                dm,
            ));
        } else {
            if subtree(cur.nodes@, cki, dm).contains(i) {
                assert((i as usize) as int == i);
                assert(subtree(before.nodes@, cki, dm).contains(i) || before.free_nodes@.contains(
                    i as usize,
                ) || (before.nodes@.len() <= i && i < cur.nodes@.len()));
                assert(!before.free_nodes@.contains(i as usize)) by {
                    if before.free_nodes@.contains(i as usize) {
                        let fi = choose|fi: int|
                            0 <= fi < before.free_nodes@.len() && before.free_nodes@[fi] == (
                            i as usize);
                        assert(before.free_nodes@[fi] != i);
                    }
                }
                assert(false);
            }
        }
    }
    // free list: never the parent
    assert forall|fi: int|
        0 <= fi < cur.free_nodes@.len() implies #[trigger] cur.free_nodes@[fi] != i by {
        let f = cur.free_nodes@[fi];
        assert(cur.free_nodes@.contains(f));
        if before.free_nodes@.contains(f) {
            let gi = choose|gi: int|
                0 <= gi < before.free_nodes@.len() && before.free_nodes@[gi] == f;
            assert(before.free_nodes@[gi] != i);
        } else if subtree(before.nodes@, cki, dm).contains(f as int) {
            assert(!subtree(before.nodes@, cki, dm).contains(i));
        } else {
            assert(before.nodes@.len() <= f < cur.nodes@.len());
            assert(i < mid.nodes@.len());
        }
    }
    // free list: never inside a child subtree
    assert forall|f: usize, j: int|
        #![trigger cur.free_nodes@.contains(f), child(mid.nodes@, i, j)]
        cur.free_nodes@.contains(f) && 0 <= j < 8 implies !subtree(
        cur.nodes@,
        child(mid.nodes@, i, j),
        dm,
    ).contains(f as int) by {
        let cj = child(mid.nodes@, i, j);
        if j == ki {
            assert(!subtree(cur.nodes@, cki, dm).contains(f as int));
        } else {
            assert(subtree(cur.nodes@, cj, dm) == subtree(before.nodes@, cj, dm));
            if before.free_nodes@.contains(f) {
                assert(!subtree(before.nodes@, cj, dm).contains(f as int));
            } else if subtree(before.nodes@, cki, dm).contains(f as int) {
                assert(subtree(before.nodes@, cj, dm).disjoint(subtree(before.nodes@, cki, dm)));
            } else {
                assert(before.nodes@.len() <= f < cur.nodes@.len());
                lemma_subtree_bounds(before.nodes@, cj, dm);
            }
        }
    }
}

/// Paint step, part four: provenance of subtrees and of the free list, and
/// the frame of all slots outside the painted branch.
#[verifier::rlimit(100)]
proof fn lemma_paint_step_prov(
    mid: Octree,
    before: Octree,
    cur: Octree,
    i: int,
    ki: int,
    d: nat,
)
    requires
        0 <= ki < 8,
        d >= 1,
        0 <= i < mid.nodes@.len(),
        mid.nodes@[i] is Branch,
        wf_node(mid.nodes@, i, d),
        before.nodes@.len() >= mid.nodes@.len(),
        cur.nodes@.len() >= before.nodes@.len(),
        i < before.nodes@.len(),
        // how before relates to mid
        forall|f: usize|
            #[trigger] before.free_nodes@.contains(f) ==> (mid.free_nodes@.contains(f) || (exists|
                j: int,
            |
                0 <= j < 8 && subtree(mid.nodes@, #[trigger] child(mid.nodes@, i, j), (d - 1) as nat).contains(
                    f as int,
                )) || mid.nodes@.len() <= f < before.nodes@.len()),
        forall|j: int, t: int|
            0 <= j < 8 && #[trigger] subtree(before.nodes@, child(mid.nodes@, i, j), (d - 1) as nat).contains(
                t,
            ) ==> ((exists|j2: int|
                0 <= j2 < 8 && subtree(mid.nodes@, #[trigger] child(mid.nodes@, i, j2), (d - 1) as nat).contains(
                    t,
                )) || mid.free_nodes@.contains(t as usize) || mid.nodes@.len() <= t
                < before.nodes@.len()),
        forall|t: int|
            #![trigger before.nodes@[t], mid.nodes@[t]]
            0 <= t < mid.nodes@.len() && t != i && !mid.free_nodes@.contains(t as usize) && (forall|
                j: int,
            |
                0 <= j < 8 ==> !subtree(
                    mid.nodes@,
                    #[trigger] child(mid.nodes@, i, j),
                    (d - 1) as nat,
                ).contains(t)) ==> before.nodes@[t] == mid.nodes@[t],
        subtree(before.nodes@, child(mid.nodes@, i, ki), (d - 1) as nat) == subtree(
            mid.nodes@,
            child(mid.nodes@, i, ki),
            (d - 1) as nat,
        ),
        // how cur relates to before
        forall|j: int|
            0 <= j < 8 && j != ki ==> subtree(
                cur.nodes@,
                #[trigger] child(mid.nodes@, i, j),
                (d - 1) as nat,
            ) == subtree(before.nodes@, child(mid.nodes@, i, j), (d - 1) as nat),
        forall|t: int|
            #![trigger cur.nodes@[t]]
            0 <= t < before.nodes@.len() && !subtree(
                before.nodes@,
                child(mid.nodes@, i, ki),
                (d - 1) as nat,
            ).contains(t) && !before.free_nodes@.contains(t as usize) ==> cur.nodes@[t]
                == before.nodes@[t],
        forall|f: usize|
            #[trigger] cur.free_nodes@.contains(f) ==> (before.free_nodes@.contains(f) || subtree(
                before.nodes@,
                child(mid.nodes@, i, ki),
                (d - 1) as nat,
            ).contains(f as int) || before.nodes@.len() <= f < cur.nodes@.len()),
        forall|t: int|
            #[trigger] subtree(cur.nodes@, child(mid.nodes@, i, ki), (d - 1) as nat).contains(t)
                ==> ((exists|j2: int|
                0 <= j2 < 8 && subtree(mid.nodes@, #[trigger] child(mid.nodes@, i, j2), (d - 1) as nat).contains(
                    t,
                )) || mid.free_nodes@.contains(t as usize) || mid.nodes@.len() <= t
                < cur.nodes@.len()),
    ensures
        forall|f: usize|
            #[trigger] cur.free_nodes@.contains(f) ==> (mid.free_nodes@.contains(f) || (exists|
                j: int,
            |
                0 <= j < 8 && subtree(mid.nodes@, #[trigger] child(mid.nodes@, i, j), (d - 1) as nat).contains(
                    f as int,
                )) || mid.nodes@.len() <= f < cur.nodes@.len()),
        forall|j: int, t: int|
            0 <= j < 8 && #[trigger] subtree(cur.nodes@, child(mid.nodes@, i, j), (d - 1) as nat).contains(
                t,
            ) ==> ((exists|j2: int|
                0 <= j2 < 8 && subtree(mid.nodes@, #[trigger] child(mid.nodes@, i, j2), (d - 1) as nat).contains(
                    t,
                )) || mid.free_nodes@.contains(t as usize) || mid.nodes@.len() <= t
                < cur.nodes@.len()),
        forall|t: int|
            #![trigger cur.nodes@[t], mid.nodes@[t]]
            0 <= t < mid.nodes@.len() && t != i && !mid.free_nodes@.contains(t as usize) && (forall|
                j: int,
            |
                0 <= j < 8 ==> !subtree(
                    mid.nodes@,
                    #[trigger] child(mid.nodes@, i, j),
                    (d - 1) as nat,
                ).contains(t)) ==> cur.nodes@[t] == mid.nodes@[t],
{
    let dm = (d - 1) as nat;
    let cki = child(mid.nodes@, i, ki);
    lemma_len_bounds(before);
    lemma_len_bounds(mid);
    // free provenance against mid
    assert forall|f: usize| #[trigger]
        cur.free_nodes@.contains(f) implies (mid.free_nodes@.contains(f) || (exists|j: int|
        0 <= j < 8 && subtree(mid.nodes@, #[trigger] child(mid.nodes@, i, j), dm).contains(f as int))
        || mid.nodes@.len() <= f < cur.nodes@.len()) by {
        if before.free_nodes@.contains(f) {
        } else if subtree(before.nodes@, cki, dm).contains(f as int) {
            assert(subtree(mid.nodes@, child(mid.nodes@, i, ki), dm).contains(f as int));
        }
    }
    // subtree provenance against mid
    assert forall|j: int, t: int|
        0 <= j < 8 && #[trigger] subtree(cur.nodes@, child(mid.nodes@, i, j), dm).contains(
            t,
        ) implies ((exists|j2: int|
        0 <= j2 < 8 && subtree(mid.nodes@, #[trigger] child(mid.nodes@, i, j2), dm).contains(t))
        || mid.free_nodes@.contains(t as usize) || mid.nodes@.len() <= t < cur.nodes@.len()) by {
        let cj = child(mid.nodes@, i, j);
        if j != ki {
            assert(subtree(cur.nodes@, cj, dm) == subtree(before.nodes@, cj, dm));
            assert(subtree(before.nodes@, cj, dm).contains(t));
        }
    }
    // global frame against mid
    assert forall|t: int|
        #![trigger cur.nodes@[t], mid.nodes@[t]]
        0 <= t < mid.nodes@.len() && t != i && !mid.free_nodes@.contains(t as usize) && (forall|
            j: int,
        |
            0 <= j < 8 ==> !subtree(mid.nodes@, #[trigger] child(mid.nodes@, i, j), dm).contains(t))
            implies cur.nodes@[t] == mid.nodes@[t] by {
        assert(before.nodes@[t] == mid.nodes@[t]);
        assert((t as usize) as int == t);
        assert(!subtree(before.nodes@, cki, dm).contains(t)) by {
            if subtree(before.nodes@, cki, dm).contains(t) {
                assert(subtree(mid.nodes@, child(mid.nodes@, i, ki), dm).contains(t));
            }
        }
        assert(!before.free_nodes@.contains(t as usize)) by {
            if before.free_nodes@.contains(t as usize) {
                assert(mid.free_nodes@.contains(t as usize) || (exists|j: int|
                    0 <= j < 8 && subtree(mid.nodes@, #[trigger] child(mid.nodes@, i, j), dm).contains(
                        ((t as usize) as int),
                    )) || (mid.nodes@.len() <= (t as usize) && ((t as usize) as int)
                    < before.nodes@.len()));
            }
        }
    }
}

/// One step of the per-octant paint loop: child `ki` has just been painted
/// (from snapshot `before` to `cur`); every loop fact moves forward.
#[verifier::rlimit(100)]
proof fn lemma_paint_step(
    mid: Octree,
    before: Octree,
    cur: Octree,
    i: int,
    ki: int,
    d: nat,
    ox: int,
    oy: int,
    oz: int,
    ex: int,
    ey: int,
    ez: int,
    voxel: u32,
    sx0: int,
    sy0: int,
    sz0: int,
    sx1: int,
    sy1: int,
    sz1: int,
)
    requires
        0 <= ki < 8,
        paint_loop_inv(mid, before, i, ki, d, ox, oy, oz, ex, ey, ez, voxel),
        paint_effect(
            before,
            cur,
            child(mid.nodes@, i, ki),
            (d - 1) as nat,
            sx0,
            sy0,
            sz0,
            sx1,
            sy1,
            sz1,
            voxel,
        ),
        forall|c: int|
            0 <= c < pow2((d - 1) as nat) ==> (#[trigger] in_interval(sx0, sx1, c) <==> in_interval(
                ox,
                ex,
                axis_sel(ki % 2 == 1, c, pow2((d - 1) as nat) as int),
            )),
        forall|c: int|
            0 <= c < pow2((d - 1) as nat) ==> (#[trigger] in_interval(sy0, sy1, c) <==> in_interval(
                oy,
                ey,
                axis_sel((ki / 2) % 2 == 1, c, pow2((d - 1) as nat) as int),
            )),
        forall|c: int|
            0 <= c < pow2((d - 1) as nat) ==> (#[trigger] in_interval(sz0, sz1, c) <==> in_interval(
                oz,
                ez,
                axis_sel(ki / 4 == 1, c, pow2((d - 1) as nat) as int),
            )),
    ensures
        paint_loop_inv(mid, cur, i, ki + 1, d, ox, oy, oz, ex, ey, ez, voxel),
{
    let dm = (d - 1) as nat;
    let h = pow2(dm) as int;
    let cki = child(mid.nodes@, i, ki);
    // child `ki` of the snapshot still equals its `mid` version
    assert(wf_node(mid.nodes@, cki, dm));
    assert forall|t: int| #[trigger]
        subtree(mid.nodes@, cki, dm).contains(t) implies before.nodes@[t] == mid.nodes@[t] by {}
    lemma_frame(mid.nodes@, before.nodes@, cki, dm);
    lemma_paint_step_frame(mid, before, cur, i, ki, d);
    lemma_paint_step_child(
        mid,
        before,
        cur,
        i,
        ki,
        d,
        ox,
        oy,
        oz,
        ex,
        ey,
        ez,
        voxel,
        sx0,
        sy0,
        sz0,
        sx1,
        sy1,
        sz1,
    );
    lemma_paint_step_disjoint(mid, before, cur, i, ki, d);
    lemma_paint_step_prov(mid, before, cur, i, ki, d);
    // combine the per-octant value facts into the loop invariant's form
    assert forall|j: int, lx: int, ly: int, lz: int|
        0 <= j < 8 && 0 <= lx < pow2(dm) && 0 <= ly < pow2(dm) && 0 <= lz < pow2(dm)
            implies #[trigger] value_at(cur.nodes@, child(mid.nodes@, i, j), dm, lx, ly, lz) == (if j
            < ki + 1 && in_box(
            ox,
            oy,
            oz,
            ex,
            ey,
            ez,
            axis_sel(j % 2 == 1, lx, h),
            axis_sel((j / 2) % 2 == 1, ly, h),
            axis_sel(j / 4 == 1, lz, h),
        ) {
            voxel
        } else {
            value_at(mid.nodes@, child(mid.nodes@, i, j), dm, lx, ly, lz)
        }) by {
        if j != ki {
            assert(value_at(cur.nodes@, child(mid.nodes@, i, j), dm, lx, ly, lz) == value_at(
                before.nodes@,
                child(mid.nodes@, i, j),
                dm,
                lx,
                ly,
                lz,
            ));
        }
    }
    // untouched octants also keep their index sets against mid
    assert forall|j: int|
        ki + 1 <= j < 8 implies subtree(cur.nodes@, #[trigger] child(mid.nodes@, i, j), dm)
        == subtree(mid.nodes@, child(mid.nodes@, i, j), dm) by {
        assert(subtree(cur.nodes@, child(mid.nodes@, i, j), dm) == subtree(
            before.nodes@,
            child(mid.nodes@, i, j),
            dm,
        ));
    }
    assert(paint_loop_inv(mid, cur, i, ki + 1, d, ox, oy, oz, ex, ey, ez, voxel));
}

/// After the loop has painted all eight octants, the branch at `i` is
/// well-formed again and ready for `merge_branch`.
#[verifier::rlimit(100)]
proof fn lemma_paint_premerge(mid: Octree, cur: Octree, i: int, d: nat)
    requires
        d >= 1,
        0 <= i < mid.nodes@.len(),
        mid.nodes@[i] is Branch,
        i < cur.nodes@.len(),
        cur.nodes@[i] == mid.nodes@[i],
        forall|j: int|
            0 <= j < 8 ==> wf_node(cur.nodes@, #[trigger] child(mid.nodes@, i, j), (d - 1) as nat)
                && compressed(cur.nodes@, child(mid.nodes@, i, j), (d - 1) as nat),
        forall|j1: int, j2: int|
            0 <= j1 < 8 && 0 <= j2 < 8 && j1 != j2 ==> subtree(
                cur.nodes@,
                #[trigger] child(mid.nodes@, i, j1),
                (d - 1) as nat,
            ).disjoint(subtree(cur.nodes@, #[trigger] child(mid.nodes@, i, j2), (d - 1) as nat)),
        forall|j: int|
            0 <= j < 8 ==> !subtree(cur.nodes@, #[trigger] child(mid.nodes@, i, j), (d - 1) as nat).contains(
                i,
            ),
        forall|f: usize, j: int|
            #![trigger cur.free_nodes@.contains(f), child(mid.nodes@, i, j)]
            cur.free_nodes@.contains(f) && 0 <= j < 8 ==> !subtree(
                cur.nodes@,
                child(mid.nodes@, i, j),
                (d - 1) as nat,
            ).contains(f as int),
        forall|fi: int| 0 <= fi < cur.free_nodes@.len() ==> #[trigger] cur.free_nodes@[fi] != i,
    ensures
        wf_node(cur.nodes@, i, d),
        forall|k: int| 0 <= k < 8 ==> #[trigger] child(cur.nodes@, i, k) == child(mid.nodes@, i, k),
        forall|k: int|
            0 <= k < 8 ==> compressed(
                cur.nodes@,
                #[trigger] child(cur.nodes@, i, k),
                (d - 1) as nat,
            ),
        forall|fi: int|
            0 <= fi < cur.free_nodes@.len() ==> !subtree(cur.nodes@, i, d).contains(
                #[trigger] (cur.free_nodes@[fi] as int),
            ),
        forall|t: int|
            #[trigger] subtree(cur.nodes@, i, d).contains(t) <==> (t == i || exists|j: int|
                0 <= j < 8 && subtree(
                    cur.nodes@,
                    #[trigger] child(mid.nodes@, i, j),
                    (d - 1) as nat,
                ).contains(t)),
{
    let dm = (d - 1) as nat;
    assert forall|k: int| 0 <= k < 8 implies #[trigger] child(cur.nodes@, i, k) == child(
        mid.nodes@,
        i,
        k,
    ) by {}
    assert(wf_node(cur.nodes@, i, d));
    assert(subtree(cur.nodes@, i, d) == set!{i}.union(
        subtree(cur.nodes@, child(cur.nodes@, i, 0), dm),
    ).union(subtree(cur.nodes@, child(cur.nodes@, i, 1), dm)).union(
        subtree(cur.nodes@, child(cur.nodes@, i, 2), dm),
    ).union(subtree(cur.nodes@, child(cur.nodes@, i, 3), dm)).union(
        subtree(cur.nodes@, child(cur.nodes@, i, 4), dm),
    ).union(subtree(cur.nodes@, child(cur.nodes@, i, 5), dm)).union(
        subtree(cur.nodes@, child(cur.nodes@, i, 6), dm),
    ).union(subtree(cur.nodes@, child(cur.nodes@, i, 7), dm)));
    assert forall|fi: int|
        0 <= fi < cur.free_nodes@.len() implies !subtree(cur.nodes@, i, d).contains(
        #[trigger] (cur.free_nodes@[fi] as int),
    ) by {
        let f = cur.free_nodes@[fi];
        assert(cur.free_nodes@.contains(f));
    }
}

/// The values the painted branch holds, chained back to the original tree.
#[verifier::rlimit(100)]
proof fn lemma_paint_finish_values(
    old0: Octree,
    mid: Octree,
    postloop: Octree,
    fin: Octree,
    i: int,
    d: nat,
    ox: int,
    oy: int,
    oz: int,
    ex: int,
    ey: int,
    ez: int,
    voxel: u32,
)
    requires
        d >= 1,
        0 <= i < mid.nodes@.len(),
        mid.nodes@[i] is Branch,
        wf_node(mid.nodes@, i, d),
        i < postloop.nodes@.len(),
        postloop.nodes@[i] == mid.nodes@[i],
        forall|x: int, y: int, z: int|
            0 <= x < pow2(d) && 0 <= y < pow2(d) && 0 <= z < pow2(d) ==> #[trigger] value_at(
                mid.nodes@,
                i,
                d,
                x,
                y,
                z,
            ) == value_at(old0.nodes@, i, d, x, y, z),
        forall|j: int, lx: int, ly: int, lz: int|
            0 <= j < 8 && 0 <= lx < pow2((d - 1) as nat) && 0 <= ly < pow2((d - 1) as nat) && 0 <= lz
                < pow2((d - 1) as nat) ==> #[trigger] value_at(
                postloop.nodes@,
                child(mid.nodes@, i, j),
                (d - 1) as nat,
                lx,
                ly,
                lz,
            ) == (if in_box(
                ox,
                oy,
                oz,
                ex,
                ey,
                ez,
                axis_sel(j % 2 == 1, lx, pow2((d - 1) as nat) as int),
                axis_sel((j / 2) % 2 == 1, ly, pow2((d - 1) as nat) as int),
                axis_sel(j / 4 == 1, lz, pow2((d - 1) as nat) as int),
            ) {
                voxel
            } else {
                value_at(mid.nodes@, child(mid.nodes@, i, j), (d - 1) as nat, lx, ly, lz)
            }),
        forall|x: int, y: int, z: int|
            #[trigger] value_at(fin.nodes@, i, d, x, y, z) == value_at(
                postloop.nodes@,
                i,
                d,
                x,
                y,
                z,
            ),
    ensures
        forall|x: int, y: int, z: int|
            0 <= x < pow2(d) && 0 <= y < pow2(d) && 0 <= z < pow2(d) ==> #[trigger] value_at(
                fin.nodes@,
                i,
                d,
                x,
                y,
                z,
            ) == (if in_box(ox, oy, oz, ex, ey, ez, x, y, z) {
                voxel
            } else {
                value_at(old0.nodes@, i, d, x, y, z)
            }),
{
    let dm = (d - 1) as nat;
    let h = pow2(dm) as int;
    vstd::arithmetic::power2::lemma_pow2_unfold(d);
    assert forall|x: int, y: int, z: int|
        0 <= x < pow2(d) && 0 <= y < pow2(d) && 0 <= z < pow2(d) implies #[trigger] value_at(
        fin.nodes@,
        i,
        d,
        x,
        y,
        z,
    ) == (if in_box(ox, oy, oz, ex, ey, ez, x, y, z) {
        voxel
    } else {
        value_at(old0.nodes@, i, d, x, y, z)
    }) by {
        let oct = octant_index(h, x, y, z);
        assert(0 <= oct < 8);
        let lx = local_coord(h, x);
        let ly = local_coord(h, y);
        let lz = local_coord(h, z);
        assert(0 <= lx < pow2(dm) && 0 <= ly < pow2(dm) && 0 <= lz < pow2(dm));
        assert(oct % 2 == 1 <==> x >= h);
        assert((oct / 2) % 2 == 1 <==> y >= h);
        assert(oct / 4 == 1 <==> z >= h);
        assert(axis_sel(oct % 2 == 1, lx, h) == x);
        assert(axis_sel((oct / 2) % 2 == 1, ly, h) == y);
        assert(axis_sel(oct / 4 == 1, lz, h) == z);
        let co = child(mid.nodes@, i, oct);
        assert(child(postloop.nodes@, i, oct) == co);
        assert(value_at(postloop.nodes@, i, d, x, y, z) == value_at(
            postloop.nodes@,
            co,
            dm,
            lx,
            ly,
            lz,
        ));
        assert(value_at(mid.nodes@, i, d, x, y, z) == value_at(mid.nodes@, co, dm, lx, ly, lz));
    }
}

/// Frame, subtree and free-list provenance of the painted branch, chained
/// back to the original tree.
#[verifier::rlimit(100)]
proof fn lemma_paint_finish_prov(
    old0: Octree,
    mid: Octree,
    postloop: Octree,
    fin: Octree,
    i: int,
    d: nat,
)
    requires
        d >= 1,
        paint_pre(old0, i, d),
        0 <= i < mid.nodes@.len(),
        mid.nodes@[i] is Branch,
        wf_node(mid.nodes@, i, d),
        mid.nodes@.len() >= old0.nodes@.len(),
        postloop.nodes@.len() >= mid.nodes@.len(),
        fin.nodes@.len() == postloop.nodes@.len(),
        // how mid relates to old0
        forall|t: int|
            #[trigger] subtree(mid.nodes@, i, d).contains(t) ==> (subtree(old0.nodes@, i, d).contains(
                t,
            ) || old0.free_nodes@.contains(t as usize) || old0.nodes@.len() <= t
                < mid.nodes@.len()),
        mid.free_nodes@.len() <= old0.free_nodes@.len(),
        forall|fi: int|
            0 <= fi < mid.free_nodes@.len() ==> #[trigger] mid.free_nodes@[fi] == old0.free_nodes@[fi],
        forall|t: int|
            #![trigger mid.nodes@[t], old0.nodes@[t]]
            0 <= t < old0.nodes@.len() && !subtree(old0.nodes@, i, d).contains(t)
                && !old0.free_nodes@.contains(t as usize) ==> mid.nodes@[t] == old0.nodes@[t],
        // how postloop relates to mid (loop invariant, counter 8)
        forall|f: usize|
            #[trigger] postloop.free_nodes@.contains(f) ==> (mid.free_nodes@.contains(f) || (exists|
                j: int,
            |
                0 <= j < 8 && subtree(mid.nodes@, #[trigger] child(mid.nodes@, i, j), (d - 1) as nat).contains(
                    f as int,
                )) || mid.nodes@.len() <= f < postloop.nodes@.len()),
        forall|j: int, t: int|
            0 <= j < 8 && #[trigger] subtree(
                postloop.nodes@,
                child(mid.nodes@, i, j),
                (d - 1) as nat,
            ).contains(t) ==> ((exists|j2: int|
                0 <= j2 < 8 && subtree(mid.nodes@, #[trigger] child(mid.nodes@, i, j2), (d - 1) as nat).contains(
                    t,
                )) || mid.free_nodes@.contains(t as usize) || mid.nodes@.len() <= t
                < postloop.nodes@.len()),
        forall|t: int|
            #![trigger postloop.nodes@[t], mid.nodes@[t]]
            0 <= t < mid.nodes@.len() && t != i && !mid.free_nodes@.contains(t as usize) && (forall|
                j: int,
            |
                0 <= j < 8 ==> !subtree(
                    mid.nodes@,
                    #[trigger] child(mid.nodes@, i, j),
                    (d - 1) as nat,
                ).contains(t)) ==> postloop.nodes@[t] == mid.nodes@[t],
        // the decomposition of the branch's subtree after the loop
        forall|t: int|
            #[trigger] subtree(postloop.nodes@, i, d).contains(t) <==> (t == i || exists|j: int|
                0 <= j < 8 && subtree(
                    postloop.nodes@,
                    #[trigger] child(mid.nodes@, i, j),
                    (d - 1) as nat,
                ).contains(t)),
        // what merge_branch did: postloop -> fin
        forall|t: int|
            0 <= t < postloop.nodes@.len() && t != i ==> #[trigger] fin.nodes@[t]
                == postloop.nodes@[t],
        forall|t: int|
            #[trigger] subtree(fin.nodes@, i, d).contains(t) ==> subtree(
                postloop.nodes@,
                i,
                d,
            ).contains(t),
        forall|f: usize|
            #[trigger] fin.free_nodes@.contains(f) ==> (postloop.free_nodes@.contains(f) || (
            subtree(postloop.nodes@, i, d).contains(f as int) && f != i)),
    ensures
        forall|t: int|
            #![trigger fin.nodes@[t]]
            0 <= t < old0.nodes@.len() && !subtree(old0.nodes@, i, d).contains(t)
                && !old0.free_nodes@.contains(t as usize) ==> fin.nodes@[t] == old0.nodes@[t],
        forall|t: int|
            #[trigger] subtree(fin.nodes@, i, d).contains(t) ==> (subtree(old0.nodes@, i, d).contains(
                t,
            ) || old0.free_nodes@.contains(t as usize) || old0.nodes@.len() <= t
                < fin.nodes@.len()),
        forall|f: usize|
            #[trigger] fin.free_nodes@.contains(f) ==> (old0.free_nodes@.contains(f) || subtree(
                old0.nodes@,
                i,
                d,
            ).contains(f as int) || old0.nodes@.len() <= f < fin.nodes@.len()),
{
    let dm = (d - 1) as nat;
    lemma_subtree_bounds(old0.nodes@, i, d);
    lemma_subtree_bounds(mid.nodes@, i, d);
    lemma_len_bounds(old0);
    lemma_len_bounds(mid);
    // subtree provenance against the original tree
    assert forall|t: int| #[trigger]
        subtree(fin.nodes@, i, d).contains(t) implies (subtree(old0.nodes@, i, d).contains(t)
        || old0.free_nodes@.contains(t as usize) || old0.nodes@.len() <= t < fin.nodes@.len()) by {
        assert(subtree(postloop.nodes@, i, d).contains(t));
        if t != i {
            let j = choose|j: int|
                0 <= j < 8 && subtree(postloop.nodes@, #[trigger] child(mid.nodes@, i, j), dm).contains(
                    t,
                );
            if exists|j2: int|
                0 <= j2 < 8 && subtree(mid.nodes@, #[trigger] child(mid.nodes@, i, j2), dm).contains(
                    t,
                ) {
                let j2 = choose|j2: int|
                    0 <= j2 < 8 && subtree(mid.nodes@, #[trigger] child(mid.nodes@, i, j2), dm).contains(
                        t,
                    );
                lemma_subtree_child_subset(mid.nodes@, i, d, j2);
                assert(subtree(mid.nodes@, i, d).contains(t));
            } else if mid.free_nodes@.contains(t as usize) {
                let fi = choose|fi: int|
                    0 <= fi < mid.free_nodes@.len() && mid.free_nodes@[fi] == t as usize;
                assert(old0.free_nodes@[fi] == t as usize);
                assert(old0.free_nodes@.contains(t as usize));
            }
        }
    }
    // frame against the original tree
    assert forall|t: int|
        #![trigger fin.nodes@[t]]
        0 <= t < old0.nodes@.len() && !subtree(old0.nodes@, i, d).contains(t)
            && !old0.free_nodes@.contains(t as usize) implies fin.nodes@[t] == old0.nodes@[t] by {
        assert(t != i);
        assert((t as usize) as int == t);
        assert(!mid.free_nodes@.contains(t as usize)) by {
            if mid.free_nodes@.contains(t as usize) {
                let fi = choose|fi: int|
                    0 <= fi < mid.free_nodes@.len() && mid.free_nodes@[fi] == t as usize;
                assert(old0.free_nodes@[fi] == t as usize);
                assert(old0.free_nodes@.contains(t as usize));
            }
        }
        assert forall|j: int| 0 <= j < 8 implies !subtree(
            mid.nodes@,
            #[trigger] child(mid.nodes@, i, j),
            dm,
        ).contains(t) by {
            if subtree(mid.nodes@, child(mid.nodes@, i, j), dm).contains(t) {
                lemma_subtree_child_subset(mid.nodes@, i, d, j);
                assert(subtree(mid.nodes@, i, d).contains(t));
            }
        }
        assert(postloop.nodes@[t] == mid.nodes@[t]);
        assert(mid.nodes@[t] == old0.nodes@[t]);
    }
    // free provenance against the original tree
    assert forall|f: usize| #[trigger]
        fin.free_nodes@.contains(f) implies (old0.free_nodes@.contains(f) || subtree(
        old0.nodes@,
        i,
        d,
    ).contains(f as int) || old0.nodes@.len() <= f < fin.nodes@.len()) by {
        if postloop.free_nodes@.contains(f) {
            if mid.free_nodes@.contains(f) {
                let fi = choose|fi: int|
                    0 <= fi < mid.free_nodes@.len() && mid.free_nodes@[fi] == f;
                assert(old0.free_nodes@[fi] == f);
                assert(old0.free_nodes@.contains(f));
            } else if exists|j: int|
                0 <= j < 8 && subtree(mid.nodes@, #[trigger] child(mid.nodes@, i, j), dm).contains(
                    f as int,
                ) {
                let j = choose|j: int|
                    0 <= j < 8 && subtree(mid.nodes@, #[trigger] child(mid.nodes@, i, j), dm).contains(
                        f as int,
                    );
                lemma_subtree_child_subset(mid.nodes@, i, d, j);
                assert(subtree(mid.nodes@, i, d).contains(f as int));
            }
        } else {
            assert(subtree(postloop.nodes@, i, d).contains(f as int) && f != i);
            let j = choose|j: int|
                0 <= j < 8 && subtree(postloop.nodes@, #[trigger] child(mid.nodes@, i, j), dm).contains(
                    f as int,
                );
            if exists|j2: int|
                0 <= j2 < 8 && subtree(mid.nodes@, #[trigger] child(mid.nodes@, i, j2), dm).contains(
                    f as int,
                ) {
                let j2 = choose|j2: int|
                    0 <= j2 < 8 && subtree(mid.nodes@, #[trigger] child(mid.nodes@, i, j2), dm).contains(
                        f as int,
                    );
                lemma_subtree_child_subset(mid.nodes@, i, d, j2);
                assert(subtree(mid.nodes@, i, d).contains(f as int));
            } else if mid.free_nodes@.contains(f) {
                let fi = choose|fi: int|
                    0 <= fi < mid.free_nodes@.len() && mid.free_nodes@[fi] == f;
                assert(old0.free_nodes@[fi] == f);
                assert(old0.free_nodes@.contains(f));
            }
        }
    }
}

/// Number of branch nodes among the first `m` arena slots.
pub open spec fn branches_before(nodes: Seq<Node>, m: int) -> int
    decreases m,
{
    if m <= 0 {
        0
    } else {
        branches_before(nodes, m - 1) + (if nodes[m - 1] is Branch {
            1int
        } else {
            0int
        })
    }
}

/// The deterministic breadth-first arena layout that compaction produces:
/// slot 0 is the root, and the eight children of the `b`-th branch (counting
/// branches in slot order) occupy slots `1 + 8*b` through `8 + 8*b`.  Two
/// compactions of structurally equal trees therefore yield equal arenas.
pub open spec fn bfs_layout(nodes: Seq<Node>) -> bool {
    &&& nodes.len() >= 1
    &&& nodes.len() == 1 + 8 * branches_before(nodes, nodes.len() as int)
    &&& forall|m: int, k: int|
        0 <= m < nodes.len() && 0 <= k < 8 && nodes[m] is Branch ==> #[trigger] child(nodes, m, k)
            == 1 + 8 * branches_before(nodes, m) + k
}

/// Number of branch nodes among the first `m` queue entries, read in the
/// arena `nodes`.
spec fn qbranches(nodes: Seq<Node>, q: Seq<usize>, m: int) -> int
    decreases m,
{
    if m <= 0 {
        0
    } else {
        qbranches(nodes, q, m - 1) + (if nodes[q[m - 1] as int] is Branch {
            1int
        } else {
            0int
        })
    }
}

/// `qbranches` only reads the first `m` queue entries.
proof fn lemma_qbranches_prefix(nodes: Seq<Node>, q1: Seq<usize>, q2: Seq<usize>, m: int)
    requires
        0 <= m <= q1.len(),
        m <= q2.len(),
        forall|p: int| 0 <= p < m ==> q1[p] == q2[p],
    ensures
        qbranches(nodes, q1, m) == qbranches(nodes, q2, m),
    decreases m,
{
    if m > 0 {
        lemma_qbranches_prefix(nodes, q1, q2, m - 1);
    }
}

/// `qbranches` grows weakly with its prefix length.
proof fn lemma_qbranches_mono(nodes: Seq<Node>, q: Seq<usize>, a: int, b: int)
    requires
        0 <= a <= b,
    ensures
        qbranches(nodes, q, a) <= qbranches(nodes, q, b),
    decreases b - a,
{
    if a < b {
        lemma_qbranches_mono(nodes, q, a, b - 1);
    }
}

/// A sequence of distinct indices below `n` has at most `n` entries.
proof fn lemma_distinct_bounded(q: Seq<usize>, n: int)
    requires
        forall|m1: int, m2: int| 0 <= m1 < m2 < q.len() ==> q[m1] != q[m2],
        forall|m: int| 0 <= m < q.len() ==> (#[trigger] q[m]) < n,
        n >= 0,
    ensures
        q.len() <= n,
{
    let qint = Seq::new(q.len(), |m: int| q[m] as int);
    assert(qint.no_duplicates());
    qint.unique_seq_to_set();
    assert(qint.to_set().subset_of(vstd::set_lib::set_int_range(0, n))) by {
        assert forall|e: int| qint.to_set().contains(e) implies vstd::set_lib::set_int_range(
            0,
            n,
        ).contains(e) by {
            let m = choose|m: int| 0 <= m < qint.len() && qint[m] == e;
            assert(q[m] < n);
        }
    }
    vstd::set_lib::lemma_int_range(0, n);
    vstd::set_lib::lemma_len_subset(qint.to_set(), vstd::set_lib::set_int_range(0, n));
}

/// How a rebuilt slot relates to the old slot it replaces: same leaf value,
/// or a branch whose children point at the new positions of the old
/// children.
spec fn remapped(old_nodes: Seq<Node>, q: Seq<usize>, newn: Seq<Node>, p: int) -> bool {
    match old_nodes[q[p] as int] {
        Node::Leaf(v) => newn[p] == Node::Leaf(v),
        Node::Branch(_) => {
            &&& newn[p] is Branch
            &&& forall|k: int|
                0 <= k < 8 ==> 0 <= #[trigger] child(newn, p, k) < q.len() && q[child(
                    newn,
                    p,
                    k,
                )] as int == child(old_nodes, q[p] as int, k)
        },
    }
}

/// Rebuilding every queue entry in place preserves shape, compression and
/// values, and the new subtree's indices map back into the old subtree.
proof fn lemma_remap(old_nodes: Seq<Node>, newn: Seq<Node>, q: Seq<usize>, n: int, d: nat)
    requires
        newn.len() == q.len(),
        forall|p: int| 0 <= p < q.len() ==> remapped(old_nodes, q, newn, p),
        forall|m1: int, m2: int| 0 <= m1 < m2 < q.len() ==> q[m1] != q[m2],
        0 <= n < q.len(),
        wf_node(old_nodes, q[n] as int, d),
        compressed(old_nodes, q[n] as int, d),
    ensures
        wf_node(newn, n, d),
        compressed(newn, n, d),
        forall|x: int, y: int, z: int|
            value_at(newn, n, d, x, y, z) == value_at(old_nodes, q[n] as int, d, x, y, z),
        forall|t: int|
            #[trigger] subtree(newn, n, d).contains(t) ==> 0 <= t < q.len() && subtree(
                old_nodes,
                q[n] as int,
                d,
            ).contains(q[t] as int),
    decreases d,
{
    assert(remapped(old_nodes, q, newn, n));
    lemma_subtree_bounds(old_nodes, q[n] as int, d);
    match old_nodes[q[n] as int] {
        Node::Leaf(v) => {
            assert(subtree(newn, n, d) =~= set!{n});
        },
        Node::Branch(och) => {
            let dm = (d - 1) as nat;
            assert forall|k: int| 0 <= k < 8 implies wf_node(
                newn,
                #[trigger] child(newn, n, k),
                dm,
            ) && compressed(newn, child(newn, n, k), dm) && (forall|x: int, y: int, z: int|
                value_at(newn, child(newn, n, k), dm, x, y, z) == value_at(
                    old_nodes,
                    child(old_nodes, q[n] as int, k),
                    dm,
                    x,
                    y,
                    z,
                )) && (forall|t: int|
                #[trigger] subtree(newn, child(newn, n, k), dm).contains(t) ==> 0 <= t < q.len()
                    && subtree(old_nodes, child(old_nodes, q[n] as int, k), dm).contains(
                    q[t] as int,
                )) by {
                let ck = child(newn, n, k);
                let ock = child(old_nodes, q[n] as int, k);
                assert(q[ck] as int == ock);
                assert(wf_node(old_nodes, ock, dm));
                assert(compressed(old_nodes, ock, dm));
                lemma_remap(old_nodes, newn, q, ck, dm);
            }
            // shape: children subtrees disjoint, none contains the parent
            assert forall|k1: int, k2: int|
                0 <= k1 < 8 && 0 <= k2 < 8 && k1 != k2 implies subtree(
                newn,
                #[trigger] child(newn, n, k1),
                dm,
            ).disjoint(subtree(newn, #[trigger] child(newn, n, k2), dm)) by {
                assert forall|t: int|
                    subtree(newn, child(newn, n, k1), dm).contains(t) && subtree(
                        newn,
                        child(newn, n, k2),
                        dm,
                    ).contains(t) implies false by {
                    assert(subtree(old_nodes, child(old_nodes, q[n] as int, k1), dm).contains(
                        q[t] as int,
                    ));
                    assert(subtree(old_nodes, child(old_nodes, q[n] as int, k2), dm).contains(
                        q[t] as int,
                    ));
                    assert(subtree(old_nodes, child(old_nodes, q[n] as int, k1), dm).disjoint(
                        subtree(old_nodes, child(old_nodes, q[n] as int, k2), dm),
                    ));
                }
            }
            assert forall|k: int| 0 <= k < 8 implies !subtree(
                newn,
                #[trigger] child(newn, n, k),
                dm,
            ).contains(n) by {
                if subtree(newn, child(newn, n, k), dm).contains(n) {
                    assert(subtree(old_nodes, child(old_nodes, q[n] as int, k), dm).contains(
                        q[n] as int,
                    ));
                    assert(!subtree(old_nodes, child(old_nodes, q[n] as int, k), dm).contains(
                        q[n] as int,
                    ));
                }
            }
            assert(wf_node(newn, n, d));
            // compression: a mergeable rebuilt branch would mean a mergeable
            // original branch
            assert(!mergeable(newn, n)) by {
                if mergeable(newn, n) {
                    assert forall|k: int| 0 <= k < 8 implies old_nodes[#[trigger] child(
                        old_nodes,
                        q[n] as int,
                        k,
                    )] == old_nodes[child(old_nodes, q[n] as int, 0)] && old_nodes[child(
                        old_nodes,
                        q[n] as int,
                        0,
                    )] is Leaf by {
                        let c0 = child(newn, n, 0);
                        let ck = child(newn, n, k);
                        assert(remapped(old_nodes, q, newn, c0));
                        assert(remapped(old_nodes, q, newn, ck));
                        assert(newn[ck] == newn[c0] && newn[c0] is Leaf);
                    }
                    assert(mergeable(old_nodes, q[n] as int));
                }
            }
            assert(compressed(newn, n, d));
            // values agree coordinate for coordinate
            assert forall|x: int, y: int, z: int|
                value_at(newn, n, d, x, y, z) == value_at(
                    old_nodes,
                    q[n] as int,
                    d,
                    x,
                    y,
                    z,
                ) by {
                let h = pow2(dm) as int;
                let oct = octant_index(h, x, y, z);
                assert(0 <= oct < 8);
                assert(value_at(newn, child(newn, n, oct), dm, local_coord(h, x), local_coord(h, y), local_coord(h, z))
                    == value_at(old_nodes, child(old_nodes, q[n] as int, oct), dm, local_coord(h, x), local_coord(h, y), local_coord(h, z)));
            }
            // subtree image
            assert forall|t: int| #[trigger] subtree(newn, n, d).contains(t) implies 0 <= t
                < q.len() && subtree(old_nodes, q[n] as int, d).contains(q[t] as int) by {
                assert(subtree(newn, n, d) == set!{n}.union(
                    subtree(newn, child(newn, n, 0), dm),
                ).union(subtree(newn, child(newn, n, 1), dm)).union(
                    subtree(newn, child(newn, n, 2), dm),
                ).union(subtree(newn, child(newn, n, 3), dm)).union(
                    subtree(newn, child(newn, n, 4), dm),
                ).union(subtree(newn, child(newn, n, 5), dm)).union(
                    subtree(newn, child(newn, n, 6), dm),
                ).union(subtree(newn, child(newn, n, 7), dm)));
                if t == n {
                } else {
                    let k = choose|k: int|
                        0 <= k < 8 && subtree(newn, #[trigger] child(newn, n, k), dm).contains(t);
                    assert(subtree(old_nodes, child(old_nodes, q[n] as int, k), dm).contains(
                        q[t] as int,
                    ));
                    lemma_subtree_child_subset(old_nodes, q[n] as int, d, k);
                }
            }
        },
    }
}

/// Queue entry `m`, as an arena index.
spec fn qat(q: Seq<usize>, m: int) -> int {
    q[m] as int
}

/// The invariant of the breadth-first discovery pass inside `shrinked`.
/// Entries below `head` are processed; the subtrees hanging off the entries
/// from `head` on partition the unvisited part of the root's subtree.
spec fn bfs_inv(
    nodes: Seq<Node>,
    rooti: int,
    l: nat,
    q: Seq<usize>,
    depths: Seq<nat>,
    rind: Seq<usize>,
    n: int,
    head: int,
) -> bool {
    &&& n == nodes.len()
    &&& wf_node(nodes, rooti, l)
    &&& depths.len() == q.len()
    &&& 1 <= q.len() <= n
    &&& 0 <= head <= q.len()
    &&& qat(q, 0) == rooti
    &&& depths[0] == l
    &&& forall|m: int|
        0 <= m < q.len() ==> wf_node(nodes, #[trigger] qat(q, m), depths[m]) && compressed(
            nodes,
            qat(q, m),
            depths[m],
        )
    &&& forall|m1: int, m2: int| 0 <= m1 < m2 < q.len() ==> qat(q, m1) != qat(q, m2)
    &&& forall|m1: int, m2: int|
        head <= m1 < q.len() && head <= m2 < q.len() && m1 != m2 ==> subtree(
            nodes,
            #[trigger] qat(q, m1),
            depths[m1],
        ).disjoint(subtree(nodes, #[trigger] qat(q, m2), depths[m2]))
    &&& forall|m: int, m2: int|
        0 <= m < head && head <= m2 < q.len() ==> !subtree(
            nodes,
            #[trigger] qat(q, m2),
            depths[m2],
        ).contains(#[trigger] qat(q, m))
    &&& forall|t: int|
        #[trigger] subtree(nodes, rooti, l).contains(t) <==> ((exists|m: int|
            0 <= m < head && #[trigger] qat(q, m) == t) || (exists|m: int|
            head <= m < q.len() && subtree(nodes, #[trigger] qat(q, m), depths[m]).contains(t)))
    &&& rind.len() == n
    &&& forall|m: int| 0 <= m < q.len() ==> rind[#[trigger] qat(q, m)] as int == m
    &&& forall|t: int|
        0 <= t < n && (#[trigger] rind[t]) != usize::MAX ==> exists|m: int|
            0 <= m < q.len() && #[trigger] qat(q, m) == t
    &&& q.len() == 1 + 8 * qbranches(nodes, q, head)
    &&& forall|m: int, k: int|
        0 <= m < head && 0 <= k < 8 && nodes[qat(q, m)] is Branch ==> qat(
            q,
            1 + 8 * qbranches(nodes, q, m) + k,
        ) == #[trigger] child(nodes, #[trigger] qat(q, m), k)
}

/// One breadth-first step over a leaf entry: only `head` moves.
proof fn lemma_bfs_step_leaf(
    nodes: Seq<Node>,
    rooti: int,
    l: nat,
    q: Seq<usize>,
    depths: Seq<nat>,
    rind: Seq<usize>,
    n: int,
    head: int,
)
    requires
        bfs_inv(nodes, rooti, l, q, depths, rind, n, head),
        head < q.len(),
        nodes[qat(q, head)] is Leaf,
    ensures
        bfs_inv(nodes, rooti, l, q, depths, rind, n, head + 1),
{
    assert(subtree(nodes, qat(q, head), depths[head as int]) =~= set!{qat(q, head)});
    assert(qbranches(nodes, q, head + 1) == qbranches(nodes, q, head));
    assert forall|t: int| #[trigger]
        subtree(nodes, rooti, l).contains(t) implies ((exists|m: int|
        0 <= m < head + 1 && #[trigger] qat(q, m) == t) || (exists|m: int|
        head + 1 <= m < q.len() && subtree(nodes, #[trigger] qat(q, m), depths[m]).contains(
            t,
        ))) by {
        if exists|m: int| head <= m < q.len() && subtree(nodes, #[trigger] qat(q, m), depths[m]).contains(t) {
            let m = choose|m: int|
                head <= m < q.len() && subtree(nodes, #[trigger] qat(q, m), depths[m]).contains(t);
            if m == head {
                assert(qat(q, head) == t);
            }
        }
    }
    assert forall|t: int|
        ((exists|m: int| 0 <= m < head + 1 && #[trigger] qat(q, m) == t) || (exists|m: int|
            head + 1 <= m < q.len() && subtree(nodes, #[trigger] qat(q, m), depths[m]).contains(t)))
        implies #[trigger] subtree(nodes, rooti, l).contains(t) by {
        if exists|m: int| 0 <= m < head + 1 && #[trigger] qat(q, m) == t {
            let m = choose|m: int| 0 <= m < head + 1 && #[trigger] qat(q, m) == t;
            if m == head {
                assert(subtree(nodes, qat(q, head), depths[head as int]).contains(t));
            }
        }
    }
}

/// One breadth-first step over a branch entry: the eight children are
/// appended to the queue at the next free positions, marked in `rind`, and
/// `head` moves.
#[verifier::rlimit(100)]
proof fn lemma_bfs_step_branch(
    nodes: Seq<Node>,
    rooti: int,
    l: nat,
    q0: Seq<usize>,
    d0: Seq<nat>,
    r0: Seq<usize>,
    n: int,
    head: int,
    q1: Seq<usize>,
    d1: Seq<nat>,
    r1: Seq<usize>,
)
    requires
        bfs_inv(nodes, rooti, l, q0, d0, r0, n, head),
        head < q0.len(),
        nodes[qat(q0, head)] is Branch,
        q1.len() == q0.len() + 8,
        d1.len() == d0.len() + 8,
        forall|p: int| 0 <= p < q0.len() ==> #[trigger] qat(q1, p) == qat(q0, p),
        forall|p: int| 0 <= p < d0.len() ==> #[trigger] d1[p] == d0[p],
        forall|k: int|
            0 <= k < 8 ==> #[trigger] qat(q1, q0.len() + k) == child(nodes, qat(q0, head), k),
        forall|k: int| 0 <= k < 8 ==> #[trigger] d1[q0.len() + k] == (d0[head] - 1) as nat,
        r1.len() == r0.len(),
        forall|t: int|
            0 <= t < n && (forall|k: int| 0 <= k < 8 ==> child(nodes, qat(q0, head), k) != t)
                ==> #[trigger] r1[t] == r0[t],
        forall|k: int|
            0 <= k < 8 ==> r1[#[trigger] child(nodes, qat(q0, head), k)] as int == q0.len() + k,
    ensures
        bfs_inv(nodes, rooti, l, q1, d1, r1, n, head + 1),
{
    let u = qat(q0, head);
    let dh = d0[head];
    let dm = (dh - 1) as nat;
    assert(wf_node(nodes, u, dh));
    lemma_subtree_bounds(nodes, u, dh);
    assert(subtree(nodes, u, dh) == set!{u}.union(subtree(nodes, child(nodes, u, 0), dm)).union(
        subtree(nodes, child(nodes, u, 1), dm),
    ).union(subtree(nodes, child(nodes, u, 2), dm)).union(
        subtree(nodes, child(nodes, u, 3), dm),
    ).union(subtree(nodes, child(nodes, u, 4), dm)).union(
        subtree(nodes, child(nodes, u, 5), dm),
    ).union(subtree(nodes, child(nodes, u, 6), dm)).union(
        subtree(nodes, child(nodes, u, 7), dm)));
    assert forall|k: int| 0 <= k < 8 implies wf_node(
        nodes,
        #[trigger] child(nodes, u, k),
        dm,
    ) && compressed(nodes, child(nodes, u, k), dm) by {}
    // each child was not yet enqueued
    assert forall|k: int, m: int|
        0 <= k < 8 && 0 <= m < q0.len() implies #[trigger] qat(q0, m) != #[trigger] child(
        nodes,
        u,
        k,
    ) by {
        let ck = child(nodes, u, k);
        lemma_subtree_bounds(nodes, ck, dm);
        lemma_subtree_child_subset(nodes, u, dh, k);
        assert(subtree(nodes, u, dh).contains(ck));
        if m < head {
            assert(!subtree(nodes, qat(q0, head), d0[head]).contains(qat(q0, m)));
        } else if m == head {
            assert(!subtree(nodes, ck, dm).contains(u));
            assert(subtree(nodes, ck, dm).contains(ck));
        } else {
            assert(subtree(nodes, qat(q0, m), d0[m]).disjoint(
                subtree(nodes, qat(q0, head), d0[head]),
            ));
            assert(subtree(nodes, qat(q0, m), d0[m]).contains(qat(q0, m)));
        }
    }
    // entry facts for the extended queue
    assert forall|m: int| 0 <= m < q1.len() implies wf_node(
        nodes,
        #[trigger] qat(q1, m),
        d1[m],
    ) && compressed(nodes, qat(q1, m), d1[m]) by {
        if m >= q0.len() {
            assert(qat(q1, m) == child(nodes, u, m - q0.len()));
        }
    }
    // distinctness
    assert forall|m1: int, m2: int| 0 <= m1 < m2 < q1.len() implies qat(q1, m1) != qat(
        q1,
        m2,
    ) by {
        if m2 >= q0.len() {
            let k2 = m2 - q0.len();
            assert(qat(q1, m2) == child(nodes, u, k2));
            if m1 >= q0.len() {
                let k1 = m1 - q0.len();
                assert(qat(q1, m1) == child(nodes, u, k1));
                lemma_subtree_bounds(nodes, child(nodes, u, k1), dm);
                lemma_subtree_bounds(nodes, child(nodes, u, k2), dm);
                assert(subtree(nodes, child(nodes, u, k1), dm).disjoint(
                    subtree(nodes, child(nodes, u, k2), dm),
                ));
                assert(subtree(nodes, child(nodes, u, k1), dm).contains(child(nodes, u, k1)));
                assert(subtree(nodes, child(nodes, u, k2), dm).contains(child(nodes, u, k2)));
            } else {
                assert(qat(q0, m1) != child(nodes, u, k2));
            }
        }
    }
    // the extended queue still fits the arena
    assert forall|m: int| 0 <= m < q1.len() implies (#[trigger] q1[m]) < n by {
        assert(wf_node(nodes, qat(q1, m), d1[m]));
    }
    assert forall|m1: int, m2: int| 0 <= m1 < m2 < q1.len() implies q1[m1] != q1[m2] by {
        assert(qat(q1, m1) != qat(q1, m2));
    }
    lemma_distinct_bounded(q1, n);
    // frontier disjointness
    assert forall|m1: int, m2: int|
        head + 1 <= m1 < q1.len() && head + 1 <= m2 < q1.len() && m1 != m2 implies subtree(
        nodes,
        #[trigger] qat(q1, m1),
        d1[m1],
    ).disjoint(subtree(nodes, #[trigger] qat(q1, m2), d1[m2])) by {
        assert forall|t: int|
            subtree(nodes, qat(q1, m1), d1[m1]).contains(t) && subtree(
                nodes,
                qat(q1, m2),
                d1[m2],
            ).contains(t) implies false by {
            if m1 < q0.len() && m2 < q0.len() {
                assert(subtree(nodes, qat(q0, m1), d0[m1]).disjoint(
                    subtree(nodes, qat(q0, m2), d0[m2]),
                ));
            } else if m1 >= q0.len() && m2 >= q0.len() {
                let k1 = m1 - q0.len();
                let k2 = m2 - q0.len();
                assert(qat(q1, m1) == child(nodes, u, k1));
                assert(qat(q1, m2) == child(nodes, u, k2));
                assert(subtree(nodes, child(nodes, u, k1), dm).disjoint(
                    subtree(nodes, child(nodes, u, k2), dm),
                ));
            } else {
                let mo = if m1 < q0.len() {
                    m1
                } else {
                    m2
                };
                let mc = if m1 < q0.len() {
                    m2
                } else {
                    m1
                };
                let kc = mc - q0.len();
                assert(qat(q1, mc) == child(nodes, u, kc));
                lemma_subtree_child_subset(nodes, u, dh, kc);
                assert(subtree(nodes, qat(q0, mo), d0[mo]).disjoint(
                    subtree(nodes, qat(q0, head), d0[head]),
                ));
                assert(subtree(nodes, child(nodes, u, kc), dm).contains(t));
                assert(subtree(nodes, u, dh).contains(t));
                assert(subtree(nodes, qat(q1, mo), d1[mo]).contains(t));
            }
        }
    }
    // processed entries stay outside the frontier
    assert forall|m: int, m2: int|
        0 <= m < head + 1 && head + 1 <= m2 < q1.len() implies !subtree(
        nodes,
        #[trigger] qat(q1, m2),
        d1[m2],
    ).contains(#[trigger] qat(q1, m)) by {
        if subtree(nodes, qat(q1, m2), d1[m2]).contains(qat(q1, m)) {
            if m2 >= q0.len() {
                let kc = m2 - q0.len();
                assert(qat(q1, m2) == child(nodes, u, kc));
                lemma_subtree_child_subset(nodes, u, dh, kc);
                assert(subtree(nodes, u, dh).contains(qat(q1, m)));
                if m < head {
                    assert(!subtree(nodes, qat(q0, head), d0[head]).contains(qat(q0, m)));
                } else {
                    assert(!subtree(nodes, child(nodes, u, kc), dm).contains(u));
                }
            } else {
                if m < head {
                    assert(!subtree(nodes, qat(q0, m2), d0[m2]).contains(qat(q0, m)));
                } else {
                    assert(subtree(nodes, qat(q0, m2), d0[m2]).disjoint(
                        subtree(nodes, qat(q0, head), d0[head]),
                    ));
                    assert(subtree(nodes, qat(q0, head), d0[head]).contains(u));
                }
            }
        }
    }
    // the partition of the root's subtree
    assert forall|t: int| #[trigger]
        subtree(nodes, rooti, l).contains(t) implies ((exists|m: int|
        0 <= m < head + 1 && #[trigger] qat(q1, m) == t) || (exists|m: int|
        head + 1 <= m < q1.len() && subtree(nodes, #[trigger] qat(q1, m), d1[m]).contains(
            t,
        ))) by {
        if exists|m: int| 0 <= m < head && #[trigger] qat(q0, m) == t {
            let m = choose|m: int| 0 <= m < head && #[trigger] qat(q0, m) == t;
            assert(qat(q1, m) == t);
        } else {
            let m = choose|m: int|
                head <= m < q0.len() && subtree(nodes, #[trigger] qat(q0, m), d0[m]).contains(t);
            if m == head {
                if t == u {
                    assert(qat(q1, head) == t);
                } else {
                    let k = choose|k: int|
                        0 <= k < 8 && subtree(nodes, #[trigger] child(nodes, u, k), dm).contains(t);
                    assert(qat(q1, q0.len() + k) == child(nodes, u, k));
                    assert(subtree(nodes, qat(q1, q0.len() + k), d1[q0.len() + k]).contains(t));
                }
            } else {
                assert(subtree(nodes, qat(q1, m), d1[m]).contains(t));
            }
        }
    }
    assert forall|t: int|
        ((exists|m: int| 0 <= m < head + 1 && #[trigger] qat(q1, m) == t) || (exists|m: int|
            head + 1 <= m < q1.len() && subtree(nodes, #[trigger] qat(q1, m), d1[m]).contains(t)))
        implies #[trigger] subtree(nodes, rooti, l).contains(t) by {
        if exists|m: int| 0 <= m < head + 1 && #[trigger] qat(q1, m) == t {
            let m = choose|m: int| 0 <= m < head + 1 && #[trigger] qat(q1, m) == t;
            if m == head {
                assert(subtree(nodes, qat(q0, head), d0[head]).contains(t));
            } else {
                assert(qat(q0, m) == t);
            }
        } else {
            let m = choose|m: int|
                head + 1 <= m < q1.len() && subtree(nodes, #[trigger] qat(q1, m), d1[m]).contains(
                    t,
                );
            if m < q0.len() {
                assert(subtree(nodes, qat(q0, m), d0[m]).contains(t));
            } else {
                let k = m - q0.len();
                assert(qat(q1, m) == child(nodes, u, k));
                lemma_subtree_child_subset(nodes, u, dh, k);
                assert(subtree(nodes, qat(q0, head), d0[head]).contains(t));
            }
        }
    }
    // marks agree with queue positions
    assert forall|m: int| 0 <= m < q1.len() implies r1[#[trigger] qat(q1, m)] as int == m by {
        if m < q0.len() {
            assert(r0[qat(q0, m)] as int == m);
            assert(forall|k: int| 0 <= k < 8 ==> child(nodes, u, k) != qat(q0, m));
            assert(r1[qat(q0, m)] == r0[qat(q0, m)]);
        } else {
            assert(qat(q1, m) == child(nodes, u, m - q0.len()));
        }
    }
    assert forall|t: int|
        0 <= t < n && (#[trigger] r1[t]) != usize::MAX implies exists|m: int|
        0 <= m < q1.len() && #[trigger] qat(q1, m) == t by {
        if forall|k: int| 0 <= k < 8 ==> #[trigger] child(nodes, u, k) != t {
            assert(r1[t] == r0[t]);
            let m = choose|m: int| 0 <= m < q0.len() && #[trigger] qat(q0, m) == t;
            assert(qat(q1, m) == t);
        } else {
            let k = choose|k: int| 0 <= k < 8 && #[trigger] child(nodes, u, k) == t;
            assert(qat(q1, q0.len() + k) == t);
        }
    }
    // breadth-first positions
    assert forall|p: int| 0 <= p < q0.len() implies q0[p] == q1[p] by {
        assert(qat(q1, p) == qat(q0, p));
    }
    lemma_qbranches_prefix(nodes, q0, q1, head);
    lemma_qbranches_prefix(nodes, q0, q1, head + 1);
    assert(qbranches(nodes, q1, head + 1) == qbranches(nodes, q1, head) + 1);
    assert(q1.len() == 1 + 8 * qbranches(nodes, q1, head + 1));
    assert forall|m: int, k: int|
        0 <= m < head + 1 && 0 <= k < 8 && nodes[qat(q1, m)] is Branch implies qat(
        q1,
        1 + 8 * qbranches(nodes, q1, m) + k,
    ) == #[trigger] child(nodes, #[trigger] qat(q1, m), k) by {
        lemma_qbranches_prefix(nodes, q0, q1, m);
        if m < head {
            assert(qat(q1, m) == qat(q0, m));
            assert(child(nodes, qat(q0, m), k) == child(nodes, qat(q1, m), k));
            assert(qat(q0, 1 + 8 * qbranches(nodes, q0, m) + k) == child(nodes, qat(q0, m), k));
            assert(qbranches(nodes, q0, m + 1) == qbranches(nodes, q0, m) + 1);
            lemma_qbranches_mono(nodes, q0, m + 1, head);
            lemma_qbranches_mono(nodes, q0, 0, m);
            let pos = 1 + 8 * qbranches(nodes, q0, m) + k;
            assert(0 <= pos < q0.len());
            assert(q0[pos] == q1[pos]);
            assert(qat(q1, pos) == qat(q0, pos));
        } else {
            assert(qbranches(nodes, q1, head) == qbranches(nodes, q0, head));
            assert(qat(q1, q0.len() + k) == child(nodes, u, k));
        }
    }
}

/// Subtree index sets are finite.
proof fn lemma_subtree_finite(nodes: Seq<Node>, i: int, d: nat)
    ensures
        subtree(nodes, i, d).finite(),
    decreases d,
{
    if 0 <= i < nodes.len() && nodes[i] is Branch && d > 0 {
        lemma_subtree_finite(nodes, child(nodes, i, 0), (d - 1) as nat);
        lemma_subtree_finite(nodes, child(nodes, i, 1), (d - 1) as nat);
        lemma_subtree_finite(nodes, child(nodes, i, 2), (d - 1) as nat);
        lemma_subtree_finite(nodes, child(nodes, i, 3), (d - 1) as nat);
        lemma_subtree_finite(nodes, child(nodes, i, 4), (d - 1) as nat);
        lemma_subtree_finite(nodes, child(nodes, i, 5), (d - 1) as nat);
        lemma_subtree_finite(nodes, child(nodes, i, 6), (d - 1) as nat);
        lemma_subtree_finite(nodes, child(nodes, i, 7), (d - 1) as nat);
    }
}

/// Branch counts in the rebuilt arena match branch counts along the queue.
proof fn lemma_bb_qb(nodes: Seq<Node>, q: Seq<usize>, newn: Seq<Node>, m: int)
    requires
        0 <= m <= q.len(),
        m <= newn.len(),
        forall|p: int|
            0 <= p < m ==> ((#[trigger] newn[p]) is Branch <==> nodes[qat(q, p)] is Branch),
    ensures
        branches_before(newn, m) == qbranches(nodes, q, m),
    decreases m,
{
    if m > 0 {
        lemma_bb_qb(nodes, q, newn, m - 1);
        assert(qat(q, m - 1) == q[m - 1] as int);
    }
}

/// What the finished rebuild guarantees: the new arena is the old root's
/// subtree, renumbered breadth-first, with shape, compression and values
/// kept.
#[verifier::rlimit(100)]
proof fn lemma_bfs_finish(
    nodes: Seq<Node>,
    rooti: int,
    l: nat,
    q: Seq<usize>,
    depths: Seq<nat>,
    rind: Seq<usize>,
    n: int,
    newn: Seq<Node>,
)
    requires
        bfs_inv(nodes, rooti, l, q, depths, rind, n, q.len() as int),
        newn.len() == q.len(),
        forall|p: int| 0 <= p < q.len() ==> remapped(nodes, q, newn, p),
        forall|p: int|
            0 <= p < q.len() ==> ((#[trigger] newn[p]) is Branch <==> nodes[qat(q, p)] is Branch),
    ensures
        wf_node(newn, 0, l),
        compressed(newn, 0, l),
        forall|x: int, y: int, z: int|
            value_at(newn, 0, l, x, y, z) == value_at(nodes, rooti, l, x, y, z),
        newn.len() == subtree(nodes, rooti, l).len(),
        bfs_layout(newn),
{
    let qlen = q.len() as int;
    // the queue enumerates the root's subtree without repetition
    assert forall|m1: int, m2: int| 0 <= m1 < m2 < qlen implies q[m1] != q[m2] by {
        assert(qat(q, m1) != qat(q, m2));
    }
    lemma_remap(nodes, newn, q, 0, l);
    // cardinality: arena size equals the reachable count
    let qint = Seq::new(q.len(), |m: int| q[m] as int);
    assert(qint.no_duplicates());
    qint.unique_seq_to_set();
    assert(subtree(nodes, rooti, l) =~= qint.to_set()) by {
        assert forall|t: int| #[trigger]
            subtree(nodes, rooti, l).contains(t) implies qint.to_set().contains(t) by {
            let m = choose|m: int| 0 <= m < qlen && #[trigger] qat(q, m) == t;
            assert(qint[m] == t);
        }
        assert forall|t: int| #[trigger] qint.to_set().contains(t) implies subtree(
            nodes,
            rooti,
            l,
        ).contains(t) by {
            let m = choose|m: int| 0 <= m < qint.len() && qint[m] == t;
            assert(qat(q, m) == t);
        }
    }
    // the breadth-first layout of the rebuilt arena
    assert forall|m: int, k: int|
        0 <= m < newn.len() && 0 <= k < 8 && newn[m] is Branch implies #[trigger] child(
        newn,
        m,
        k,
    ) == 1 + 8 * branches_before(newn, m) + k by {
        assert(remapped(nodes, q, newn, m));
        assert(nodes[qat(q, m)] is Branch);
        let pos = 1 + 8 * qbranches(nodes, q, m) + k;
        assert(qat(q, pos) == child(nodes, qat(q, m), k));
        assert(qbranches(nodes, q, m + 1) == qbranches(nodes, q, m) + 1);
        lemma_qbranches_mono(nodes, q, m + 1, qlen);
        lemma_qbranches_mono(nodes, q, 0, m);
        assert(0 <= pos < qlen);
        let ck = child(newn, m, k);
        assert(q[ck] as int == child(nodes, qat(q, m), k));
        assert(qat(q, ck) == qat(q, pos));
        assert(ck == pos);
        lemma_bb_qb(nodes, q, newn, m);
    }
    lemma_bb_qb(nodes, q, newn, qlen);
    assert(bfs_layout(newn));
}

/// With no resolution cutoff, a coarse query is an exact query.
proof fn lemma_sample_value_full(nodes: Seq<Node>, i: int, d: nat, x: int, y: int, z: int)
    ensures
        sample_value(nodes, i, d, 0, x, y, z) == value_at(nodes, i, d, x, y, z),
    decreases d,
{
    if 0 <= i < nodes.len() && !(nodes[i] is Leaf) && d > 0 {
        let h = pow2((d - 1) as nat) as int;
        lemma_sample_value_full(
            nodes,
            child(nodes, i, octant_index(h, x, y, z)),
            (d - 1) as nat,
            local_coord(h, x),
            local_coord(h, y),
            local_coord(h, z),
        );
    }
}

/// Errors the octree reports instead of panicking.
#[derive(Clone, Copy, Debug, PartialEq, Eq)]
pub enum OctreeError {
    /// Bulk-build input whose length is not an exact power of eight.
    InvalidSize,
    /// Serialization was asked of a tree that is not compacted.
    NotCompacted,
}

/// The reserved word that encodes a missing child in the GPU buffer.
pub const NIL_WORD: u32 = 0xFFFF_FFFF;

/// The 12-word record of node `j` inside a GPU buffer: one value word (the
/// leaf value, or 0 for a branch), eight child words (child indices, or the
/// reserved `NIL_WORD` for a leaf), three words of padding.
pub open spec fn node_record(buf: Seq<u32>, t: Octree, j: int) -> bool {
    &&& buf[4 + 12 * j] == (match t.node_at(j) {
        Node::Leaf(v) => v,
        Node::Branch(_) => 0u32,
    })
    &&& forall|k: int|
        0 <= k < 8 ==> #[trigger] buf[4 + 12 * j + 1 + k] == (match t.node_at(j) {
            Node::Leaf(_) => NIL_WORD,
            Node::Branch(ch) => ch[k] as u32,
        })
    &&& buf[4 + 12 * j + 9] == 0u32
    &&& buf[4 + 12 * j + 10] == 0u32
    &&& buf[4 + 12 * j + 11] == 0u32
}

impl Octree {
    /// Structural invariant of the whole tree.
    pub closed spec fn wf(self) -> bool {
        &&& self.log_extent <= 63
        &&& wf_node(self.nodes@, self.root as int, self.log_extent as nat)
        &&& compressed(self.nodes@, self.root as int, self.log_extent as nat)
        &&& free_ok(self.nodes@, self.free_nodes@)
        &&& forall|fi: int|
            0 <= fi < self.free_nodes@.len() ==> !subtree(
                self.nodes@,
                self.root as int,
                self.log_extent as nat,
            ).contains(#[trigger] (self.free_nodes@[fi] as int))
    }

    /// Side length of the cubic domain, as the exponent of 2.
    pub closed spec fn extent_log(self) -> nat {
        self.log_extent as nat
    }

    /// The voxel value the tree holds at `(x, y, z)`; the empty sentinel
    /// everywhere outside the domain.
    pub closed spec fn at(self, x: int, y: int, z: int) -> u32 {
        if 0 <= x < pow2(self.log_extent as nat) && 0 <= y < pow2(self.log_extent as nat) && 0 <= z
            < pow2(self.log_extent as nat) {
            value_at(self.nodes@, self.root as int, self.log_extent as nat, x, y, z)
        } else {
            EMPTY_VOXEL
        }
    }

    /// What `sample` returns: `at`, except that once at most `cut` levels
    /// remain the first-visited leaf descendant is reported.
    pub closed spec fn sample_at(self, x: int, y: int, z: int, cut: nat) -> u32 {
        if 0 <= x < pow2(self.log_extent as nat) && 0 <= y < pow2(self.log_extent as nat) && 0 <= z
            < pow2(self.log_extent as nat) {
            sample_value(self.nodes@, self.root as int, self.log_extent as nat, cut, x, y, z)
        } else {
            EMPTY_VOXEL
        }
    }

    /// Number of arena slots, free or live.
    pub closed spec fn node_count(self) -> nat {
        self.nodes@.len()
    }

    /// The node stored in arena slot `i`.
    pub closed spec fn node_at(self, i: int) -> Node {
        self.nodes@[i]
    }

    /// The whole arena, as a sequence of nodes.
    pub closed spec fn nodes_view(self) -> Seq<Node> {
        self.nodes@
    }

    /// The arena index of the root node.
    pub closed spec fn root_index(self) -> int {
        self.root as int
    }

    /// What `debug_boxes` reports: the non-empty leaf cells, in octant
    /// order from the domain corner.
    pub closed spec fn debug_boxes_spec(self) -> Seq<([usize; 3], usize)> {
        boxes_of(self.nodes@, self.root as int, self.log_extent as nat, 0, 0, 0)
    }

    /// Free list empty and root at index 0: the precondition of `gpu_data`.
    pub closed spec fn is_compacted(self) -> bool {
        &&& self.root == 0
        &&& self.free_nodes@.len() == 0
    }

    /// A fresh tree: one empty leaf covering a single-voxel domain.
    pub fn new() -> (r: Octree)
        ensures
            r.wf(),
            r.extent_log() == 0,
            forall|x: int, y: int, z: int| r.at(x, y, z) == EMPTY_VOXEL,
            r.is_compacted(),
            r.node_count() == 1,
    {
        let r = Octree {
            nodes: vec![Node::Leaf(EMPTY_VOXEL)],
            free_nodes: Vec::new(),
            root: 0,
            log_extent: 0,
        };
        proof {
            assert(r.nodes@[0] == Node::Leaf(EMPTY_VOXEL));
        }
        r
    }

    /// The voxel value at `coords`, at full resolution.  Coordinates outside
    /// the domain report the empty sentinel rather than an error.
    pub fn get(&self, coords: [usize; 3]) -> (r: u32)
        requires
            self.wf(),
        ensures
            r == self.at(coords[0] as int, coords[1] as int, coords[2] as int),
            coords[0] >= pow2(self.extent_log()) || coords[1] >= pow2(self.extent_log())
                || coords[2] >= pow2(self.extent_log()) ==> r == EMPTY_VOXEL,
    {
        self.sample(coords, 0)
    }

    /// The voxel value at `coords`, descending at most until `min_log_extent`
    /// levels remain; a branch reached at that cutoff reports its
    /// first-visited leaf descendant.
    pub fn sample(&self, coords: [usize; 3], min_log_extent: usize) -> (r: u32)
        requires
            self.wf(),
        ensures
            r == self.sample_at(
                coords[0] as int,
                coords[1] as int,
                coords[2] as int,
                min_log_extent as nat,
            ),
            min_log_extent == 0 ==> r == self.at(
                coords[0] as int,
                coords[1] as int,
                coords[2] as int,
            ),
            coords[0] >= pow2(self.extent_log()) || coords[1] >= pow2(self.extent_log())
                || coords[2] >= pow2(self.extent_log()) ==> r == EMPTY_VOXEL,
    {
        let side = 1u64 << (self.log_extent as u64);
        proof {
            vstd::bits::lemma_u64_pow2_no_overflow(self.log_extent as nat);
            vstd::bits::lemma_u64_shl_is_mul(1u64, self.log_extent as u64);
        }
        if coords[0] as u64 >= side || coords[1] as u64 >= side || coords[2] as u64 >= side {
            return EMPTY_VOXEL;
        }
        let mut i = self.root;
        let mut d = self.log_extent;
        let mut lx = coords[0] as u64;
        let mut ly = coords[1] as u64;
        let mut lz = coords[2] as u64;
        loop
            invariant
                self.wf(),
                wf_node(self.nodes@, i as int, d as nat),
                d <= 63,
                lx < pow2(d as nat),
                ly < pow2(d as nat),
                lz < pow2(d as nat),
                sample_value(
                    self.nodes@,
                    i as int,
                    d as nat,
                    min_log_extent as nat,
                    lx as int,
                    ly as int,
                    lz as int,
                ) == self.sample_at(
                    coords[0] as int,
                    coords[1] as int,
                    coords[2] as int,
                    min_log_extent as nat,
                ),
            decreases d,
        {
            let node = self.nodes[i];
            match node {
                Node::Leaf(v) => {
                    proof {
                        lemma_sample_value_full(
                            self.nodes@,
                            self.root as int,
                            self.log_extent as nat,
                            coords[0] as int,
                            coords[1] as int,
                            coords[2] as int,
                        );
                    }
                    return v;
                },
                Node::Branch(ch) => {
                    if d <= min_log_extent {
                        return self.first_leaf_from(i, d);
                    }
                    let h = 1u64 << ((d - 1) as u64);
                    proof {
                        vstd::bits::lemma_u64_pow2_no_overflow((d - 1) as nat);
                        vstd::bits::lemma_u64_shl_is_mul(1u64, (d - 1) as u64);
                        vstd::arithmetic::power2::lemma_pow2_unfold(d as nat);
                    }
                    let mut k: usize = 0;
                    if lx >= h {
                        k += 1;
                        lx -= h;
                    }
                    if ly >= h {
                        k += 2;
                        ly -= h;
                    }
                    if lz >= h {
                        k += 4;
                        lz -= h;
                    }
                    proof {
                        assert(child(self.nodes@, i as int, k as int) == ch[k as int] as int);
                    }
                    i = ch[k];
                    d -= 1;
                },
            }
        }
    }

    /// Walks to the first-visited leaf descendant of `i` and returns its
    /// value.
    fn first_leaf_from(&self, start: usize, depth: usize) -> (r: u32)
        requires
            self.wf(),
            wf_node(self.nodes@, start as int, depth as nat),
        ensures
            r == first_leaf(self.nodes@, start as int, depth as nat),
    {
        let mut i = start;
        let mut d = depth;
        loop
            invariant
                self.wf(),
                wf_node(self.nodes@, i as int, d as nat),
                first_leaf(self.nodes@, i as int, d as nat) == first_leaf(
                    self.nodes@,
                    start as int,
                    depth as nat,
                ),
            decreases d,
        {
            match self.nodes[i] {
                Node::Leaf(v) => {
                    return v;
                },
                Node::Branch(ch) => {
                    proof {
                        assert(child(self.nodes@, i as int, 0) == ch[0] as int);
                    }
                    i = ch[0];
                    d -= 1;
                },
            }
        }
    }

    /// Breadth-first compaction: a fresh tree whose arena holds exactly the
    /// nodes reachable from the root, renumbered in breadth-first order
    /// (`bfs_layout`, root at slot 0), with an empty free list.
    #[verifier::rlimit(100)]
    pub fn shrinked(&self) -> (r: Octree)
        requires
            self.wf(),
        ensures
            r.wf(),
            r.is_compacted(),
            r.extent_log() == self.extent_log(),
            forall|x: int, y: int, z: int| #[trigger] r.at(x, y, z) == self.at(x, y, z),
            r.node_count() == subtree(
                self.nodes_view(),
                self.root_index(),
                self.extent_log(),
            ).len(),
            bfs_layout(r.nodes_view()),
    {
        let ghost nodes = self.nodes@;
        let ghost l = self.log_extent as nat;
        let ghost rooti = self.root as int;
        let n = self.nodes.len();
        proof {
            lemma_len_bounds(*self);
            lemma_subtree_bounds(nodes, rooti, l);
        }
        let mut reindex: Vec<usize> = Vec::new();
        while reindex.len() < n
            invariant
                reindex@.len() <= n,
                forall|t: int| 0 <= t < reindex@.len() ==> #[trigger] reindex@[t] == usize::MAX,
            decreases n - reindex.len(),
        {
            reindex.push(usize::MAX);
        }
        let mut queue: Vec<usize> = Vec::new();
        queue.push(self.root);
        reindex[self.root] = 0;
        let ghost mut depths: Seq<nat> = seq![l];
        proof {
            assert(qat(queue@, 0) == rooti);
            assert(qbranches(nodes, queue@, 0) == 0);
            assert forall|t: int| #[trigger]
                subtree(nodes, rooti, l).contains(t) implies ((exists|m: int|
                0 <= m < 0 && #[trigger] qat(queue@, m) == t) || (exists|m: int|
                0 <= m < queue@.len() && subtree(nodes, #[trigger] qat(queue@, m), depths[m]).contains(
                    t,
                ))) by {
                assert(subtree(nodes, qat(queue@, 0), depths[0]).contains(t));
            }
            assert(bfs_inv(nodes, rooti, l, queue@, depths, reindex@, n as int, 0));
        }
        let mut head: usize = 0;
        while head < queue.len()
            invariant
                n == self.nodes@.len(),
                nodes == self.nodes@,
                l == self.log_extent as nat,
                rooti == self.root as int,
                head <= queue@.len(),
                bfs_inv(nodes, rooti, l, queue@, depths, reindex@, n as int, head as int),
            decreases n - head,
        {
            let u = queue[head];
            proof {
                assert(qat(queue@, head as int) == u as int);
                assert(wf_node(nodes, u as int, depths[head as int]));
            }
            let node = self.nodes[u];
            match node {
                Node::Leaf(_) => {
                    proof {
                        lemma_bfs_step_leaf(
                            nodes,
                            rooti,
                            l,
                            queue@,
                            depths,
                            reindex@,
                            n as int,
                            head as int,
                        );
                    }
                },
                Node::Branch(ch) => {
                    let ghost q0 = queue@;
                    let ghost d0 = depths;
                    let ghost r0 = reindex@;
                    let ghost dm1 = (depths[head as int] - 1) as nat;
                    proof {
                        assert(child(nodes, u as int, 0) == ch[0] as int);
                        assert(child(nodes, u as int, 1) == ch[1] as int);
                        assert(child(nodes, u as int, 2) == ch[2] as int);
                        assert(child(nodes, u as int, 3) == ch[3] as int);
                        assert(child(nodes, u as int, 4) == ch[4] as int);
                        assert(child(nodes, u as int, 5) == ch[5] as int);
                        assert(child(nodes, u as int, 6) == ch[6] as int);
                        assert(child(nodes, u as int, 7) == ch[7] as int);
                        assert(wf_node(nodes, ch[0] as int, dm1));
                        assert(wf_node(nodes, ch[1] as int, dm1));
                        assert(wf_node(nodes, ch[2] as int, dm1));
                        assert(wf_node(nodes, ch[3] as int, dm1));
                        assert(wf_node(nodes, ch[4] as int, dm1));
                        assert(wf_node(nodes, ch[5] as int, dm1));
                        assert(wf_node(nodes, ch[6] as int, dm1));
                        assert(wf_node(nodes, ch[7] as int, dm1));
                        assert forall|k1: int, k2: int|
                            0 <= k1 < 8 && 0 <= k2 < 8 && k1 != k2 implies child(
                            nodes,
                            u as int,
                            k1,
                        ) != child(nodes, u as int, k2) by {
                            lemma_subtree_bounds(nodes, child(nodes, u as int, k1), dm1);
                            lemma_subtree_bounds(nodes, child(nodes, u as int, k2), dm1);
                            assert(subtree(nodes, child(nodes, u as int, k1), dm1).disjoint(
                                subtree(nodes, child(nodes, u as int, k2), dm1),
                            ));
                        }
                    }
                    queue.push(ch[0]);
                    let p0 = queue.len() - 1;
                    reindex[ch[0]] = p0;
                    queue.push(ch[1]);
                    let p1 = queue.len() - 1;
                    reindex[ch[1]] = p1;
                    queue.push(ch[2]);
                    let p2 = queue.len() - 1;
                    reindex[ch[2]] = p2;
                    queue.push(ch[3]);
                    let p3 = queue.len() - 1;
                    reindex[ch[3]] = p3;
                    queue.push(ch[4]);
                    let p4 = queue.len() - 1;
                    reindex[ch[4]] = p4;
                    queue.push(ch[5]);
                    let p5 = queue.len() - 1;
                    reindex[ch[5]] = p5;
                    queue.push(ch[6]);
                    let p6 = queue.len() - 1;
                    reindex[ch[6]] = p6;
                    queue.push(ch[7]);
                    let p7 = queue.len() - 1;
                    reindex[ch[7]] = p7;
                    proof {
                        depths = depths + seq![dm1, dm1, dm1, dm1, dm1, dm1, dm1, dm1];
                        assert forall|p: int| 0 <= p < q0.len() implies #[trigger] qat(queue@, p)
                            == qat(q0, p) by {}
                        assert forall|k: int| 0 <= k < 8 implies #[trigger] qat(
                            queue@,
                            q0.len() + k,
                        ) == child(nodes, qat(q0, head as int), k) by {
                            assert(queue@[q0.len() as int + 0] == ch[0]);
                            assert(queue@[q0.len() as int + 1] == ch[1]);
                            assert(queue@[q0.len() as int + 2] == ch[2]);
                            assert(queue@[q0.len() as int + 3] == ch[3]);
                            assert(queue@[q0.len() as int + 4] == ch[4]);
                            assert(queue@[q0.len() as int + 5] == ch[5]);
                            assert(queue@[q0.len() as int + 6] == ch[6]);
                            assert(queue@[q0.len() as int + 7] == ch[7]);
                        }
                        assert forall|t: int|
                            0 <= t < n && (forall|k: int|
                                0 <= k < 8 ==> child(nodes, qat(q0, head as int), k) != t)
                            implies #[trigger] reindex@[t] == r0[t] by {
                            assert(t != ch[0] && t != ch[1] && t != ch[2] && t != ch[3] && t
                                != ch[4] && t != ch[5] && t != ch[6] && t != ch[7]);
                        }
                        assert forall|k: int|
                            0 <= k < 8 implies reindex@[#[trigger] child(
                            nodes,
                            qat(q0, head as int),
                            k,
                        )] as int == q0.len() + k by {
                            assert(reindex@[ch[0] as int] == p0);
                            assert(reindex@[ch[1] as int] == p1);
                            assert(reindex@[ch[2] as int] == p2);
                            assert(reindex@[ch[3] as int] == p3);
                            assert(reindex@[ch[4] as int] == p4);
                            assert(reindex@[ch[5] as int] == p5);
                            assert(reindex@[ch[6] as int] == p6);
                            assert(reindex@[ch[7] as int] == p7);
                        }
                        lemma_bfs_step_branch(
                            nodes,
                            rooti,
                            l,
                            q0,
                            d0,
                            r0,
                            n as int,
                            head as int,
                            queue@,
                            depths,
                            reindex@,
                        );
                    }
                },
            }
            head += 1;
        }
        // second pass: rebuild each discovered node at its new position
        let qlen = queue.len();
        let mut newn: Vec<Node> = Vec::new();
        let mut p: usize = 0;
        while p < qlen
            invariant
                n == self.nodes@.len(),
                nodes == self.nodes@,
                qlen == queue@.len(),
                p <= qlen,
                bfs_inv(nodes, rooti, l, queue@, depths, reindex@, n as int, qlen as int),
                newn@.len() == p,
                forall|pp: int| 0 <= pp < p ==> remapped(nodes, queue@, newn@, pp),
                forall|pp: int|
                    0 <= pp < p ==> ((#[trigger] newn@[pp]) is Branch <==> nodes[qat(queue@, pp)] is Branch),
            decreases qlen - p,
        {
            let uq = queue[p];
            proof {
                assert(qat(queue@, p as int) == uq as int);
                assert(wf_node(nodes, uq as int, depths[p as int]));
            }
            let ghost prevn = newn@;
            match self.nodes[uq] {
                Node::Leaf(v) => {
                    newn.push(Node::Leaf(v));
                    proof {
                        assert(remapped(nodes, queue@, newn@, p as int));
                        assert forall|pp: int|
                            0 <= pp < p + 1 implies remapped(nodes, queue@, newn@, pp) by {
                            if pp < p {
                                assert(remapped(nodes, queue@, prevn, pp));
                                assert(newn@[pp] == prevn[pp]);
                                assert forall|k: int|
                                    0 <= k < 8 implies #[trigger] child(newn@, pp, k) == child(
                                    prevn,
                                    pp,
                                    k,
                                ) by {}
                            }
                        }
                    }
                },
                Node::Branch(ch) => {
                    proof {
                        assert(child(nodes, uq as int, 0) == ch[0] as int);
                        assert(child(nodes, uq as int, 1) == ch[1] as int);
                        assert(child(nodes, uq as int, 2) == ch[2] as int);
                        assert(child(nodes, uq as int, 3) == ch[3] as int);
                        assert(child(nodes, uq as int, 4) == ch[4] as int);
                        assert(child(nodes, uq as int, 5) == ch[5] as int);
                        assert(child(nodes, uq as int, 6) == ch[6] as int);
                        assert(child(nodes, uq as int, 7) == ch[7] as int);
                        assert(wf_node(nodes, ch[0] as int, (depths[p as int] - 1) as nat));
                        assert(wf_node(nodes, ch[1] as int, (depths[p as int] - 1) as nat));
                        assert(wf_node(nodes, ch[2] as int, (depths[p as int] - 1) as nat));
                        assert(wf_node(nodes, ch[3] as int, (depths[p as int] - 1) as nat));
                        assert(wf_node(nodes, ch[4] as int, (depths[p as int] - 1) as nat));
                        assert(wf_node(nodes, ch[5] as int, (depths[p as int] - 1) as nat));
                        assert(wf_node(nodes, ch[6] as int, (depths[p as int] - 1) as nat));
                        assert(wf_node(nodes, ch[7] as int, (depths[p as int] - 1) as nat));
                        assert forall|k: int|
                            0 <= k < 8 implies 0 <= reindex@[#[trigger] child(
                            nodes,
                            qat(queue@, p as int),
                            k,
                        )] < qlen && qat(
                            queue@,
                            reindex@[child(nodes, qat(queue@, p as int), k)] as int,
                        ) == child(nodes, qat(queue@, p as int), k) by {
                            let pos = 1 + 8 * qbranches(nodes, queue@, p as int) + k;
                            assert(qat(queue@, pos) == child(nodes, qat(queue@, p as int), k));
                            assert(qbranches(nodes, queue@, p + 1) == qbranches(
                                nodes,
                                queue@,
                                p as int,
                            ) + 1);
                            lemma_qbranches_mono(nodes, queue@, p + 1, qlen as int);
                            lemma_qbranches_mono(nodes, queue@, 0, p as int);
                            assert(0 <= pos < qlen);
                            assert(reindex@[qat(queue@, pos)] as int == pos);
                        }
                    }
                    let c0 = reindex[ch[0]];
                    let c1 = reindex[ch[1]];
                    let c2 = reindex[ch[2]];
                    let c3 = reindex[ch[3]];
                    let c4 = reindex[ch[4]];
                    let c5 = reindex[ch[5]];
                    let c6 = reindex[ch[6]];
                    let c7 = reindex[ch[7]];
                    newn.push(Node::Branch([c0, c1, c2, c3, c4, c5, c6, c7]));
                    proof {
                        assert(child(newn@, p as int, 0) == c0 as int);
                        assert(child(newn@, p as int, 1) == c1 as int);
                        assert(child(newn@, p as int, 2) == c2 as int);
                        assert(child(newn@, p as int, 3) == c3 as int);
                        assert(child(newn@, p as int, 4) == c4 as int);
                        assert(child(newn@, p as int, 5) == c5 as int);
                        assert(child(newn@, p as int, 6) == c6 as int);
                        assert(child(newn@, p as int, 7) == c7 as int);
                        assert(remapped(nodes, queue@, newn@, p as int));
                        assert forall|pp: int|
                            0 <= pp < p + 1 implies remapped(nodes, queue@, newn@, pp) by {
                            if pp < p {
                                assert(remapped(nodes, queue@, prevn, pp));
                                assert(newn@[pp] == prevn[pp]);
                                assert forall|k: int|
                                    0 <= k < 8 implies #[trigger] child(newn@, pp, k) == child(
                                    prevn,
                                    pp,
                                    k,
                                ) by {}
                            }
                        }
                    }
                },
            }
            p += 1;
        }
        let r = Octree {
            nodes: newn,
            free_nodes: Vec::new(),
            root: 0,
            log_extent: self.log_extent,
        };
        proof {
            lemma_bfs_finish(
                nodes,
                rooti,
                l,
                queue@,
                depths,
                reindex@,
                n as int,
                r.nodes@,
            );
        }
        r
    }

    /// Bulk build from a dense array whose length must be an exact power of
    /// eight (`8^l` for some `l`); any other length is rejected.  Element
    /// `x + y*2^l + z*4^l` becomes the voxel at `(x, y, z)`.  The result is
    /// merged and compacted.
    #[verifier::rlimit(100)]
    pub fn from_voxels(voxels: &Vec<u32>) -> (r: Result<Octree, OctreeError>)
        ensures
            r is Ok <==> (exists|ll: nat| ll <= 21 && voxels@.len() == #[trigger] pow2(3 * ll)),
            r is Err ==> r === Err::<Octree, OctreeError>(OctreeError::InvalidSize),
            r is Ok ==> {
                &&& r->Ok_0.wf()
                &&& r->Ok_0.is_compacted()
                &&& bfs_layout(r->Ok_0.nodes_view())
                &&& voxels@.len() == pow2(3 * r->Ok_0.extent_log())
                &&& forall|x: int, y: int, z: int|
                    0 <= x < pow2(r->Ok_0.extent_log()) && 0 <= y < pow2(r->Ok_0.extent_log())
                        && 0 <= z < pow2(r->Ok_0.extent_log()) ==> #[trigger] r->Ok_0.at(x, y, z)
                        == voxels@[x + y * pow2(r->Ok_0.extent_log()) + z * pow2(
                        r->Ok_0.extent_log(),
                    ) * pow2(r->Ok_0.extent_log())]
            },
    {
        let len64 = voxels.len() as u64;
        let mut lvl: u64 = 0;
        while lvl < 21 && (1u64 << (3 * lvl)) < len64
            invariant
                lvl <= 21,
                len64 == voxels@.len(),
                forall|ll: nat| ll < lvl ==> #[trigger] pow2(3 * ll) < voxels@.len(),
            decreases 21 - lvl,
        {
            proof {
                vstd::bits::lemma_u64_pow2_no_overflow((3 * lvl) as nat);
                vstd::bits::lemma_u64_shl_is_mul(1u64, (3 * lvl) as u64);
                assert forall|ll: nat| ll < lvl + 1 implies #[trigger] pow2(3 * ll) < voxels@.len() by {
                    if ll < lvl {
                    } else {
                        assert(pow2((3 * lvl) as nat) < voxels@.len());
                    }
                }
            }
            lvl = lvl + 1;
        }
        proof {
            vstd::bits::lemma_u64_pow2_no_overflow((3 * lvl) as nat);
            vstd::bits::lemma_u64_shl_is_mul(1u64, (3 * lvl) as u64);
        }
        if (1u64 << (3 * lvl)) != len64 {
            proof {
                assert forall|ll: nat| ll <= 21 implies voxels@.len() != #[trigger] pow2(3 * ll) by {
                    if ll < lvl {
                    } else if ll == lvl {
                        assert(pow2((3 * lvl) as nat) != voxels@.len());
                    } else {
                        vstd::arithmetic::power2::lemma_pow2_strictly_increases(
                            (3 * lvl) as nat,
                            3 * ll,
                        );
                        if lvl < 21 {
                            assert(pow2((3 * lvl) as nat) >= voxels@.len());
                        } else {
                            assert(pow2((3 * lvl) as nat) < pow2(3 * ll));
                            assert(pow2((3 * lvl) as nat) < voxels@.len());
                        }
                    }
                }
            }
            return Err(OctreeError::InvalidSize);
        }
        proof {
            assert(voxels@.len() == pow2((3 * lvl) as nat));
        }
        let mut t = Octree::new();
        while t.log_extent < lvl as usize
            invariant
                t.wf(),
                lvl <= 21,
                t.extent_log() <= lvl as nat,
                forall|x: int, y: int, z: int| #[trigger] t.at(x, y, z) == EMPTY_VOXEL,
            decreases lvl as usize - t.log_extent,
        {
            t.grow_once();
        }
        proof {
            assert(t.extent_log() == lvl as nat);
            vstd::bits::lemma_u64_pow2_no_overflow(lvl as nat);
            vstd::bits::lemma_u64_shl_is_mul(1u64, lvl);
        }
        let side = 1u64 << lvl;
        let ghost ll = lvl as nat;
        let ghost s_i = pow2(ll) as int;
        let mut z: u64 = 0;
        while z < side
            invariant
                t.wf(),
                t.extent_log() == ll,
                ll <= 21,
                side == pow2(ll),
                s_i == pow2(ll) as int,
                z <= side,
                voxels@.len() == pow2(3 * ll),
                forall|xi: int, yi: int, zi: int|
                    0 <= xi < s_i && 0 <= yi < s_i && 0 <= zi < z ==> #[trigger] t.at(xi, yi, zi)
                        == voxels@[xi + yi * s_i + zi * s_i * s_i],
            decreases side - z,
        {
            let mut y: u64 = 0;
            while y < side
                invariant
                    t.wf(),
                    t.extent_log() == ll,
                    ll <= 21,
                    side == pow2(ll),
                    s_i == pow2(ll) as int,
                    z < side,
                    y <= side,
                    voxels@.len() == pow2(3 * ll),
                    forall|xi: int, yi: int, zi: int|
                        0 <= xi < s_i && 0 <= yi < s_i && 0 <= zi < z ==> #[trigger] t.at(
                            xi,
                            yi,
                            zi,
                        ) == voxels@[xi + yi * s_i + zi * s_i * s_i],
                    forall|xi: int, yi: int|
                        0 <= xi < s_i && 0 <= yi < y ==> #[trigger] t.at(xi, yi, z as int)
                            == voxels@[xi + yi * s_i + z * s_i * s_i],
                decreases side - y,
            {
                let mut x: u64 = 0;
                while x < side
                    invariant
                        t.wf(),
                        t.extent_log() == ll,
                        ll <= 21,
                        side == pow2(ll),
                        s_i == pow2(ll) as int,
                        z < side,
                        y < side,
                        x <= side,
                        voxels@.len() == pow2(3 * ll),
                        forall|xi: int, yi: int, zi: int|
                            0 <= xi < s_i && 0 <= yi < s_i && 0 <= zi < z ==> #[trigger] t.at(
                                xi,
                                yi,
                                zi,
                            ) == voxels@[xi + yi * s_i + zi * s_i * s_i],
                        forall|xi: int, yi: int|
                            0 <= xi < s_i && 0 <= yi < y ==> #[trigger] t.at(xi, yi, z as int)
                                == voxels@[xi + yi * s_i + z * s_i * s_i],
                        forall|xi: int|
                            0 <= xi < x ==> #[trigger] t.at(xi, y as int, z as int) == voxels@[xi
                                + y * s_i + z * s_i * s_i],
                    decreases side - x,
                {
                    proof {
                        assert(x + y * s_i + z * s_i * s_i < pow2(3 * ll)) by {
                            vstd::arithmetic::power2::lemma_pow2_adds(ll, ll);
                            vstd::arithmetic::power2::lemma_pow2_adds(ll, 2 * ll);
                            assert((x as int) + (y as int) * s_i + (z as int) * s_i * s_i < s_i
                                * s_i * s_i) by (nonlinear_arith)
                                requires
                                    0 <= x < s_i,
                                    0 <= y < s_i,
                                    0 <= z < s_i,
                                    s_i >= 1,
                            ;
                            assert(s_i * s_i == pow2(2 * ll) as int) by (nonlinear_arith)
                                requires
                                    s_i == pow2(ll) as int,
                                    pow2(2 * ll) == pow2(ll) * pow2(ll),
                            ;
                            vstd::arithmetic::power2::lemma_pow2_adds(2 * ll, ll);
                            assert(s_i * s_i * s_i == pow2(3 * ll) as int) by (nonlinear_arith)
                                requires
                                    s_i * s_i == pow2(2 * ll) as int,
                                    s_i == pow2(ll) as int,
                                    pow2(3 * ll) == pow2(2 * ll) * pow2(ll),
                            ;
                        }
                        assert(x + pow2(ll) <= 0x8000_0000_0000_0000) by {
                            vstd::arithmetic::power2::lemma2_to64();
                            vstd::arithmetic::power2::lemma2_to64_rest();
                            if ll < 62 {
                                vstd::arithmetic::power2::lemma_pow2_strictly_increases(ll, 62);
                            }
                        }
                    }
                    proof {
                        assert(side <= 0x20_0000) by {
                            vstd::arithmetic::power2::lemma2_to64();
                            if ll < 21 {
                                vstd::arithmetic::power2::lemma_pow2_strictly_increases(ll, 21);
                            }
                        }
                        assert((y as int) * (side as int) <= 0x10_0000_0000_0000)
                            by (nonlinear_arith)
                            requires
                                y < side,
                                side <= 0x20_0000,
                        ;
                        assert((z as int) * (side as int) <= 0x400_0000_0000)
                            by (nonlinear_arith)
                            requires
                                z < side,
                                side <= 0x20_0000,
                        ;
                        assert((z as int) * (side as int) * (side as int)
                            <= 0x8000_0000_0000_0000) by (nonlinear_arith)
                            requires
                                (z as int) * (side as int) <= 0x400_0000_0000,
                                side <= 0x20_0000,
                        ;
                        assert(voxels@.len() <= usize::MAX) by {
                            assert(voxels.len() == voxels@.len());
                        }
                    }
                    let idx = (x + y * side + z * side * side) as usize;
                    let v = voxels[idx];
                    let ghost pre = t;
                    t.set([x as usize, y as usize, z as usize], [1, 1, 1], v);
                    proof {
                        assert(t.extent_log() == ll) by {
                            if t.extent_log() > pre.extent_log() {
                                assert(pow2((t.extent_log() - 1) as nat) >= pow2(pre.extent_log()))
                                    by {
                                    if pre.extent_log() < (t.extent_log() - 1) as nat {
                                        vstd::arithmetic::power2::lemma_pow2_strictly_increases(
                                            pre.extent_log(),
                                            (t.extent_log() - 1) as nat,
                                        );
                                    }
                                }
                            }
                        }
                        assert forall|xi: int, yi: int, zi: int|
                            0 <= xi < s_i && 0 <= yi < s_i && 0 <= zi < z implies #[trigger] t.at(
                            xi,
                            yi,
                            zi,
                        ) == voxels@[xi + yi * s_i + zi * s_i * s_i] by {
                            assert(!in_box(x as int, y as int, z as int, 1, 1, 1, xi, yi, zi));
                            assert(pre.at(xi, yi, zi) == voxels@[xi + yi * s_i + zi * s_i * s_i]);
                        }
                        assert forall|xi: int, yi: int|
                            0 <= xi < s_i && 0 <= yi < y implies #[trigger] t.at(xi, yi, z as int)
                            == voxels@[xi + yi * s_i + z * s_i * s_i] by {
                            assert(!in_box(
                                x as int,
                                y as int,
                                z as int,
                                1,
                                1,
                                1,
                                xi,
                                yi,
                                z as int,
                            ));
                            assert(pre.at(xi, yi, z as int) == voxels@[xi + yi * s_i + z * s_i
                                * s_i]);
                        }
                        assert forall|xi: int|
                            0 <= xi < x + 1 implies #[trigger] t.at(xi, y as int, z as int)
                            == voxels@[xi + y * s_i + z * s_i * s_i] by {
                            if xi < x {
                                assert(!in_box(
                                    x as int,
                                    y as int,
                                    z as int,
                                    1,
                                    1,
                                    1,
                                    xi,
                                    y as int,
                                    z as int,
                                ));
                            } else {
                                assert(in_box(
                                    x as int,
                                    y as int,
                                    z as int,
                                    1,
                                    1,
                                    1,
                                    xi,
                                    y as int,
                                    z as int,
                                ));
                            }
                        }
                    }
                    x = x + 1;
                }
                proof {
                    assert forall|xi: int, yi: int|
                        0 <= xi < s_i && 0 <= yi < y + 1 implies #[trigger] t.at(
                        xi,
                        yi,
                        z as int,
                    ) == voxels@[xi + yi * s_i + z * s_i * s_i] by {
                        if yi == y {
                            assert(t.at(xi, y as int, z as int) == voxels@[xi + y * s_i + z * s_i
                                * s_i]);
                        }
                    }
                }
                y = y + 1;
            }
            proof {
                assert forall|xi: int, yi: int, zi: int|
                    0 <= xi < s_i && 0 <= yi < s_i && 0 <= zi < z + 1 implies #[trigger] t.at(
                    xi,
                    yi,
                    zi,
                ) == voxels@[xi + yi * s_i + zi * s_i * s_i] by {
                    if zi == z {
                        assert(t.at(xi, yi, z as int) == voxels@[xi + yi * s_i + z * s_i * s_i]);
                    }
                }
            }
            z = z + 1;
        }
        let out = t.shrinked();
        proof {
            assert(voxels@.len() == pow2(3 * out.extent_log()));
        }
        Ok(out)
    }

    /// Compacts the tree in place: afterwards the arena holds exactly the
    /// reachable nodes in breadth-first order and the free list is empty.
    pub fn shrink(&mut self)
        requires
            old(self).wf(),
        ensures
            final(self).wf(),
            final(self).is_compacted(),
            final(self).extent_log() == old(self).extent_log(),
            forall|x: int, y: int, z: int|
                #[trigger] final(self).at(x, y, z) == old(self).at(x, y, z),
            final(self).node_count() == subtree(
                old(self).nodes_view(),
                old(self).root_index(),
                old(self).extent_log(),
            ).len(),
            bfs_layout(final(self).nodes_view()),
    {
        let compacted = self.shrinked();
        *self = compacted;
    }

    /// Serializes the tree into the flat GPU wire format: a four-word header
    /// whose first word is the tree depth (words 1-3 reserved), then one
    /// 12-word record per node in arena order.  A tree that is not compacted
    /// is rejected, since child words are only meaningful over a compacted,
    /// zero-based arena.
    pub fn gpu_data(&self) -> (r: Result<Vec<u32>, OctreeError>)
        requires
            self.wf(),
            self.node_count() <= 0xFFFF_FFFE,
            4 + 12 * self.node_count() <= usize::MAX,
        ensures
            r is Ok <==> self.is_compacted(),
            !self.is_compacted() ==> r === Err(OctreeError::NotCompacted),
            r is Ok ==> {
                &&& r->Ok_0@.len() == 4 + 12 * self.node_count()
                &&& r->Ok_0@[0] == self.extent_log() as u32
                &&& r->Ok_0@[1] == 0u32
                &&& r->Ok_0@[2] == 0u32
                &&& r->Ok_0@[3] == 0u32
                &&& forall|j: int| 0 <= j < self.node_count() ==> node_record(r->Ok_0@, *self, j)
            },
    {
        if self.free_nodes.len() != 0 || self.root != 0 {
            return Err(OctreeError::NotCompacted);
        }
        let n = self.nodes.len();
        let mut out: Vec<u32> = Vec::new();
        out.push(self.log_extent as u32);
        out.push(0);
        out.push(0);
        out.push(0);
        let mut i: usize = 0;
        while i < n
            invariant
                n == self.nodes@.len(),
                4 + 12 * (n as int) <= usize::MAX,
                i <= n,
                out@.len() == 4 + 12 * i,
                out@[0] == self.log_extent as u32,
                out@[1] == 0u32,
                out@[2] == 0u32,
                out@[3] == 0u32,
                forall|j: int| 0 <= j < i ==> node_record(out@, *self, j),
            decreases n - i,
        {
            let ghost prefix = out@;
            match self.nodes[i] {
                Node::Leaf(v) => {
                    out.push(v);
                    out.push(NIL_WORD);
                    out.push(NIL_WORD);
                    out.push(NIL_WORD);
                    out.push(NIL_WORD);
                    out.push(NIL_WORD);
                    out.push(NIL_WORD);
                    out.push(NIL_WORD);
                    out.push(NIL_WORD);
                    out.push(0);
                    out.push(0);
                    out.push(0);
                    proof {
                        assert(out@.len() == prefix.len() + 12);
                        assert(forall|p: int|
                            0 <= p < prefix.len() ==> #[trigger] out@[p] == prefix[p]);
                        assert(out@[prefix.len() as int] == v);
                        assert forall|k: int|
                            0 <= k < 8 implies #[trigger] out@[prefix.len() as int + 1 + k]
                            == NIL_WORD by {
                            assert(out@[prefix.len() as int + 1] == NIL_WORD);
                            assert(out@[prefix.len() as int + 2] == NIL_WORD);
                            assert(out@[prefix.len() as int + 3] == NIL_WORD);
                            assert(out@[prefix.len() as int + 4] == NIL_WORD);
                            assert(out@[prefix.len() as int + 5] == NIL_WORD);
                            assert(out@[prefix.len() as int + 6] == NIL_WORD);
                            assert(out@[prefix.len() as int + 7] == NIL_WORD);
                            assert(out@[prefix.len() as int + 8] == NIL_WORD);
                        }
                        assert(out@[prefix.len() as int + 9] == 0u32);
                        assert(out@[prefix.len() as int + 10] == 0u32);
                        assert(out@[prefix.len() as int + 11] == 0u32);
                        assert(node_record(out@, *self, i as int));
                    }
                },
                Node::Branch(ch) => {
                    out.push(0);
                    out.push(#[verifier::truncate] (ch[0] as u32));
                    out.push(#[verifier::truncate] (ch[1] as u32));
                    out.push(#[verifier::truncate] (ch[2] as u32));
                    out.push(#[verifier::truncate] (ch[3] as u32));
                    out.push(#[verifier::truncate] (ch[4] as u32));
                    out.push(#[verifier::truncate] (ch[5] as u32));
                    out.push(#[verifier::truncate] (ch[6] as u32));
                    out.push(#[verifier::truncate] (ch[7] as u32));
                    out.push(0);
                    out.push(0);
                    out.push(0);
                    proof {
                        assert(out@.len() == prefix.len() + 12);
                        assert(forall|p: int|
                            0 <= p < prefix.len() ==> #[trigger] out@[p] == prefix[p]);
                        assert(out@[prefix.len() as int] == 0u32);
                        assert forall|k: int|
                            0 <= k < 8 implies #[trigger] out@[prefix.len() as int + 1 + k] == (ch[k]
                            as u32) by {
                            assert(out@[prefix.len() as int + 1] == (ch[0int] as u32));
                            assert(out@[prefix.len() as int + 2] == (ch[1int] as u32));
                            assert(out@[prefix.len() as int + 3] == (ch[2int] as u32));
                            assert(out@[prefix.len() as int + 4] == (ch[3int] as u32));
                            assert(out@[prefix.len() as int + 5] == (ch[4int] as u32));
                            assert(out@[prefix.len() as int + 6] == (ch[5int] as u32));
                            assert(out@[prefix.len() as int + 7] == (ch[6int] as u32));
                            assert(out@[prefix.len() as int + 8] == (ch[7int] as u32));
                        }
                        assert(out@[prefix.len() as int + 9] == 0u32);
                        assert(out@[prefix.len() as int + 10] == 0u32);
                        assert(out@[prefix.len() as int + 11] == 0u32);
                        assert(node_record(out@, *self, i as int));
                    }
                },
            }
            proof {
                assert forall|j: int| 0 <= j < i + 1 implies node_record(out@, *self, j) by {
                    if j < i {
                        assert(node_record(prefix, *self, j));
                        assert(out@[4 + 12 * j] == prefix[4 + 12 * j]);
                        assert forall|k: int|
                            0 <= k < 8 implies #[trigger] out@[4 + 12 * j + 1 + k] == prefix[4 + 12
                            * j + 1 + k] by {}
                        assert(out@[4 + 12 * j + 9] == prefix[4 + 12 * j + 9]);
                        assert(out@[4 + 12 * j + 10] == prefix[4 + 12 * j + 10]);
                        assert(out@[4 + 12 * j + 11] == prefix[4 + 12 * j + 11]);
                    }
                }
            }
            i += 1;
        }
        Ok(out)
    }

    /// Writes `voxel` over the box `[o, o+e)` (per axis, in the node's local
    /// frame) of the subtree rooted at `i`, which covers a cube of side
    /// `2^d`.  The box must already fit inside the cube; growth happens in
    /// `set`.
    #[verifier::rlimit(100)]
    fn set_descend(
        &mut self,
        ox: u64,
        oy: u64,
        oz: u64,
        ex: u64,
        ey: u64,
        ez: u64,
        voxel: u32,
        i: usize,
        d: u64,
    )
        requires
            d <= 63,
            paint_pre(*old(self), i as int, d as nat),
            ox + ex <= pow2(d as nat),
            oy + ey <= pow2(d as nat),
            oz + ez <= pow2(d as nat),
        ensures
            paint_effect(
                *old(self),
                *final(self),
                i as int,
                d as nat,
                ox as int,
                oy as int,
                oz as int,
                ex as int,
                ey as int,
                ez as int,
                voxel,
            ),
        decreases d,
    {
        if ex == 0 || ey == 0 || ez == 0 {
            return;
        }
        proof {
            lemma_subtree_bounds(old(self).nodes@, i as int, d as nat);
            vstd::bits::lemma_u64_pow2_no_overflow(d as nat);
            vstd::bits::lemma_u64_shl_is_mul(1u64, d);
        }
        let side = 1u64 << d;
        if ox == 0 && oy == 0 && oz == 0 && ex == side && ey == side && ez == side {
            let was_branch = match self.nodes[i] {
                Node::Branch(_) => true,
                Node::Leaf(_) => false,
            };
            if was_branch {
                self.drop_children(i, Ghost(d as nat));
            }
            self.nodes[i] = Node::Leaf(voxel);
            proof {
                lemma_len_bounds(*old(self));
                assert(subtree(self.nodes@, i as int, d as nat) =~= set!{i as int});
                assert forall|f: usize| #[trigger]
                    self.free_nodes@.contains(f) implies f != i && (old(
                    self,
                ).free_nodes@.contains(f) || subtree(old(self).nodes@, i as int, d as nat).contains(
                    f as int,
                )) by {
                    if old(self).free_nodes@.contains(f) {
                        let fi = choose|fi: int|
                            0 <= fi < old(self).free_nodes@.len() && old(self).free_nodes@[fi] == f;
                        assert(!subtree(old(self).nodes@, i as int, d as nat).contains(
                            old(self).free_nodes@[fi] as int,
                        ));
                    }
                }
            }
            return;
        }
        proof {
            if d == 0 {
                assert(pow2(0) == 1) by {
                    vstd::arithmetic::power2::lemma2_to64();
                }
                assert(false);
            }
            vstd::arithmetic::power2::lemma_pow2_unfold(d as nat);
            vstd::bits::lemma_u64_pow2_no_overflow((d - 1) as nat);
            vstd::bits::lemma_u64_shl_is_mul(1u64, (d - 1) as u64);
        }
        let h = 1u64 << (d - 1);
        let is_leaf = match self.nodes[i] {
            Node::Leaf(_) => true,
            Node::Branch(_) => false,
        };
        if is_leaf {
            proof {
                assert forall|fi: int|
                    0 <= fi < self.free_nodes@.len() implies self.free_nodes@[fi] != i by {
                    assert(!subtree(self.nodes@, i as int, d as nat).contains(
                        self.free_nodes@[fi] as int,
                    ));
                }
            }
            self.split_leaf(i);
            proof {
                lemma_fresh_branch(
                    self.nodes@,
                    i as int,
                    old(self).nodes@[i as int]->Leaf_0,
                    d as nat,
                );
            }
        }
        let ghost mid = *self;
        let ghost dn = d as nat;
        let ghost dm = (d - 1) as nat;
        let ch = match self.nodes[i] {
            Node::Branch(c) => c,
            Node::Leaf(_) => {
                proof {
                    assert(false);
                }
                [0; 8]
            },
        };
        proof {
            lemma_len_bounds(*old(self));
            lemma_len_bounds(mid);
            assert forall|j: int| 0 <= j < 8 implies #[trigger] child(mid.nodes@, i as int, j)
                == ch[j] as int by {}
            if is_leaf {
                let v0 = old(self).nodes@[i as int]->Leaf_0;
                assert(mid.free_nodes@ == old(self).free_nodes@.take(
                    mid.free_nodes@.len() as int,
                ));
                assert forall|fi: int|
                    0 <= fi < mid.free_nodes@.len() implies #[trigger] mid.free_nodes@[fi] == old(
                    self,
                ).free_nodes@[fi] by {
                    assert(old(self).free_nodes@.take(mid.free_nodes@.len() as int)[fi] == old(
                        self,
                    ).free_nodes@[fi]);
                }
                assert forall|j: int| 0 <= j < 8 implies wf_node(
                    mid.nodes@,
                    #[trigger] child(mid.nodes@, i as int, j),
                    dm,
                ) && compressed(mid.nodes@, child(mid.nodes@, i as int, j), dm) by {
                    assert(mid.nodes@[child(mid.nodes@, i as int, j)] == Node::Leaf(v0));
                }
                assert forall|j: int, t: int|
                    0 <= j < 8 && #[trigger] subtree(
                        mid.nodes@,
                        child(mid.nodes@, i as int, j),
                        dm,
                    ).contains(t) implies t == child(mid.nodes@, i as int, j) by {
                    assert(mid.nodes@[child(mid.nodes@, i as int, j)] is Leaf);
                }
                assert forall|fi: int|
                    0 <= fi < mid.free_nodes@.len() implies !subtree(
                    mid.nodes@,
                    i as int,
                    dn,
                ).contains(#[trigger] (mid.free_nodes@[fi] as int)) by {
                    let f = mid.free_nodes@[fi];
                    assert(mid.free_nodes@.contains(f));
                    assert(old(self).free_nodes@[fi] == f);
                    assert(!subtree(old(self).nodes@, i as int, dn).contains(
                        old(self).free_nodes@[fi] as int,
                    ));
                    if subtree(mid.nodes@, i as int, dn).contains(f as int) {
                        assert(f as int == i as int || exists|kk: int|
                            0 <= kk < 8 && f as int == #[trigger] child(mid.nodes@, i as int, kk));
                    }
                }
                assert forall|x: int, y: int, z: int|
                    0 <= x < pow2(dn) && 0 <= y < pow2(dn) && 0 <= z < pow2(dn)
                        implies #[trigger] value_at(mid.nodes@, i as int, dn, x, y, z) == value_at(
                    old(self).nodes@,
                    i as int,
                    dn,
                    x,
                    y,
                    z,
                ) by {}
            } else {
                assert(mid == *old(self));
            }
            assert(wf_node(mid.nodes@, i as int, dn));
            assert(mid.nodes@[i as int] is Branch);
            // where the snapshot's subtree may live, against the original tree
            assert forall|t: int| #[trigger]
                subtree(mid.nodes@, i as int, dn).contains(t) implies (subtree(
                old(self).nodes@,
                i as int,
                dn,
            ).contains(t) || old(self).free_nodes@.contains(t as usize) || old(
                self,
            ).nodes@.len() <= t < mid.nodes@.len()) by {
                if is_leaf {
                    if t != i {
                        let kk = choose|kk: int|
                            0 <= kk < 8 && t == #[trigger] child(mid.nodes@, i as int, kk);
                        assert(old(self).free_nodes@.contains(
                            child(mid.nodes@, i as int, kk) as usize,
                        ) || child(mid.nodes@, i as int, kk) >= old(self).nodes@.len());
                    } else {
                        lemma_subtree_bounds(old(self).nodes@, i as int, dn);
                    }
                }
            }
            assert forall|fi: int|
                0 <= fi < mid.free_nodes@.len() implies #[trigger] mid.free_nodes@[fi] == old(
                self,
            ).free_nodes@[fi] by {
                if is_leaf {
                    assert(old(self).free_nodes@.take(mid.free_nodes@.len() as int)[fi] == old(
                        self,
                    ).free_nodes@[fi]);
                }
            }
            assert forall|fi: int|
                0 <= fi < mid.free_nodes@.len() implies #[trigger] mid.free_nodes@[fi] != i by {
                assert(!subtree(old(self).nodes@, i as int, dn).contains(
                    old(self).free_nodes@[fi] as int,
                ));
                lemma_subtree_bounds(old(self).nodes@, i as int, dn);
            }
            assert forall|f: usize, j: int|
                #![trigger mid.free_nodes@.contains(f), child(mid.nodes@, i as int, j)]
                mid.free_nodes@.contains(f) && 0 <= j < 8 implies !subtree(
                mid.nodes@,
                child(mid.nodes@, i as int, j),
                dm,
            ).contains(f as int) by {
                let fi = choose|fi: int|
                    0 <= fi < mid.free_nodes@.len() && mid.free_nodes@[fi] == f;
                lemma_subtree_child_subset(mid.nodes@, i as int, dn, j);
                assert(!subtree(mid.nodes@, i as int, dn).contains(mid.free_nodes@[fi] as int));
            }
            assert(paint_loop_inv(
                mid,
                *self,
                i as int,
                0,
                dn,
                ox as int,
                oy as int,
                oz as int,
                ex as int,
                ey as int,
                ez as int,
                voxel,
            ));
        }
        let mut k: usize = 0;
        while k < 8
            invariant
                k <= 8,
                1 <= d <= 63,
                dn == d as nat,
                dm == (d - 1) as nat,
                h as int == pow2(dm) as int,
                forall|j: int|
                    0 <= j < 8 ==> #[trigger] child(mid.nodes@, i as int, j) == ch[j] as int,
                paint_loop_inv(
                    mid,
                    *self,
                    i as int,
                    k as int,
                    dn,
                    ox as int,
                    oy as int,
                    oz as int,
                    ex as int,
                    ey as int,
                    ez as int,
                    voxel,
                ),
            decreases 8 - k,
        {
            let ghost before = *self;
            let upx = k % 2 == 1;
            let upy = (k / 2) % 2 == 1;
            let upz = k / 4 == 1;
            proof {
                vstd::arithmetic::power2::lemma2_to64();
                vstd::arithmetic::power2::lemma2_to64_rest();
                if dm < 62 {
                    vstd::arithmetic::power2::lemma_pow2_strictly_increases(dm, 62);
                }
            }
            let sx = axis_slice(ox, ex, h, upx);
            let sy = axis_slice(oy, ey, h, upy);
            let sz = axis_slice(oz, ez, h, upz);
            let ck = ch[k];
            proof {
                assert(child(mid.nodes@, i as int, k as int) == ck as int);
                assert forall|fi: int|
                    0 <= fi < before.free_nodes@.len() implies !subtree(
                    before.nodes@,
                    ck as int,
                    dm,
                ).contains(#[trigger] (before.free_nodes@[fi] as int)) by {
                    assert(before.free_nodes@.contains(before.free_nodes@[fi]));
                }
                assert(paint_pre(*self, ck as int, dm));
            }
            self.set_descend(sx.0, sy.0, sz.0, sx.1, sy.1, sz.1, voxel, ck, d - 1);
            proof {
                lemma_paint_step(
                    mid,
                    before,
                    *self,
                    i as int,
                    k as int,
                    dn,
                    ox as int,
                    oy as int,
                    oz as int,
                    ex as int,
                    ey as int,
                    ez as int,
                    voxel,
                    sx.0 as int,
                    sy.0 as int,
                    sz.0 as int,
                    sx.1 as int,
                    sy.1 as int,
                    sz.1 as int,
                );
            }
            k += 1;
        }
        let ghost postloop = *self;
        proof {
            lemma_paint_premerge(mid, *self, i as int, dn);
        }
        self.merge_branch(i, Ghost(d as nat));
        proof {
            lemma_paint_finish_values(
                mid,
                mid,
                postloop,
                *self,
                i as int,
                dn,
                ox as int,
                oy as int,
                oz as int,
                ex as int,
                ey as int,
                ez as int,
                voxel,
            );
            lemma_paint_finish_prov(*old(self), mid, postloop, *self, i as int, dn);
            assert(paint_effect(
                *old(self),
                *final(self),
                i as int,
                d as nat,
                ox as int,
                oy as int,
                oz as int,
                ex as int,
                ey as int,
                ez as int,
                voxel,
            ));
        }
    }

    /// Values are preserved when the old root becomes octant 0 of a new
    /// branch whose other children are empty leaves.
    #[verifier::rlimit(100)]
    proof fn lemma_grow_values(o: Octree, f: Octree, r0: usize, nr: usize, l0: nat)
        requires
            o.log_extent as nat == l0,
            o.root == r0,
            f.log_extent as nat == l0 + 1,
            f.root == nr,
            0 <= nr < f.nodes@.len(),
            f.nodes@[nr as int] is Branch,
            child(f.nodes@, nr as int, 0) == r0 as int,
            forall|k: int|
                1 <= k < 8 ==> f.nodes@[#[trigger] child(f.nodes@, nr as int, k)] == Node::Leaf(
                    EMPTY_VOXEL,
                ) && 0 <= child(f.nodes@, nr as int, k) < f.nodes@.len(),
            forall|x: int, y: int, z: int|
                value_at(f.nodes@, r0 as int, l0, x, y, z) == value_at(
                    o.nodes@,
                    r0 as int,
                    l0,
                    x,
                    y,
                    z,
                ),
        ensures
            forall|x: int, y: int, z: int| #[trigger] f.at(x, y, z) == o.at(x, y, z),
    {
        vstd::arithmetic::power2::lemma_pow2_unfold((l0 + 1) as nat);
        let l1 = (l0 + 1) as nat;
        assert forall|x: int, y: int, z: int| #[trigger] f.at(x, y, z) == o.at(x, y, z) by {
            let h = pow2(l0) as int;
            if 0 <= x < pow2(l1) && 0 <= y < pow2(l1) && 0 <= z < pow2(l1) {
                let oct = octant_index(h, x, y, z);
                assert(0 <= oct < 8);
                if x < h && y < h && z < h {
                    assert(oct == 0);
                    assert(value_at(f.nodes@, nr as int, l1, x, y, z) == value_at(
                        f.nodes@,
                        r0 as int,
                        l0,
                        x,
                        y,
                        z,
                    ));
                } else {
                    assert(oct != 0);
                    let co = child(f.nodes@, nr as int, oct);
                    assert(f.nodes@[co] == Node::Leaf(EMPTY_VOXEL));
                    assert(0 <= co < f.nodes@.len());
                    assert(value_at(
                        f.nodes@,
                        co,
                        l0,
                        local_coord(h, x),
                        local_coord(h, y),
                        local_coord(h, z),
                    ) == EMPTY_VOXEL);
                    assert(value_at(f.nodes@, nr as int, l1, x, y, z) == EMPTY_VOXEL);
                    assert(o.at(x, y, z) == EMPTY_VOXEL);
                }
            }
        }
    }

    /// Doubles the domain's side length.  The old root becomes octant 0 of a
    /// fresh branch whose other seven children are empty leaves; a root that
    /// is already an empty leaf covers the doubled domain by itself, so only
    /// the depth grows — this keeps the compression invariant.
    #[verifier::rlimit(100)]
    fn grow_once(&mut self)
        requires
            old(self).wf(),
            old(self).log_extent < 63,
        ensures
            final(self).wf(),
            final(self).extent_log() == old(self).extent_log() + 1,
            forall|x: int, y: int, z: int|
                #[trigger] final(self).at(x, y, z) == old(self).at(x, y, z),
    {
        let ghost l0 = self.log_extent as nat;
        proof {
            lemma_subtree_bounds(old(self).nodes@, old(self).root as int, l0);
            lemma_len_bounds(*old(self));
            vstd::arithmetic::power2::lemma_pow2_unfold((l0 + 1) as nat);
        }
        let is_empty_leaf = match self.nodes[self.root] {
            Node::Leaf(v) => v == EMPTY_VOXEL,
            Node::Branch(_) => false,
        };
        if is_empty_leaf {
            self.log_extent = self.log_extent + 1;
            proof {
                assert forall|x: int, y: int, z: int|
                    #[trigger] self.at(x, y, z) == old(self).at(x, y, z) by {
                    assert(self.nodes@[self.root as int] == Node::Leaf(EMPTY_VOXEL));
                }
            }
            return;
        }
        self.grow_wrap();
    }

    /// The wrapping half of `grow_once`: the old root becomes octant 0 of a
    /// fresh branch whose other seven children are empty leaves.
    #[verifier::rlimit(100)]
    fn grow_wrap(&mut self)
        requires
            old(self).wf(),
            old(self).log_extent < 63,
            !(old(self).nodes@[old(self).root as int] == Node::Leaf(EMPTY_VOXEL)),
        ensures
            final(self).wf(),
            final(self).extent_log() == old(self).extent_log() + 1,
            forall|x: int, y: int, z: int|
                #[trigger] final(self).at(x, y, z) == old(self).at(x, y, z),
    {
        let ghost l0 = self.log_extent as nat;
        proof {
            lemma_subtree_bounds(old(self).nodes@, old(self).root as int, l0);
            lemma_len_bounds(*old(self));
            vstd::arithmetic::power2::lemma_pow2_unfold((l0 + 1) as nat);
        }
        let r0 = self.root;
        let c1 = self.new_leaf(EMPTY_VOXEL);
        let c2 = self.new_leaf(EMPTY_VOXEL);
        let c3 = self.new_leaf(EMPTY_VOXEL);
        let c4 = self.new_leaf(EMPTY_VOXEL);
        let c5 = self.new_leaf(EMPTY_VOXEL);
        let c6 = self.new_leaf(EMPTY_VOXEL);
        let c7 = self.new_leaf(EMPTY_VOXEL);
        let nr = self.new_leaf(EMPTY_VOXEL);
        let ch = [r0, c1, c2, c3, c4, c5, c6, c7];
        self.nodes[nr] = Node::Branch(ch);
        self.root = nr;
        self.log_extent = self.log_extent + 1;
        proof {
            let o = *old(self);
            let f = *self;
            let l1 = (l0 + 1) as nat;
            // slots outside the old free list are untouched (but for nr)
            assert forall|t: int|
                0 <= t < o.nodes@.len() && !o.free_nodes@.contains(t as usize) && t != nr
                    implies f.nodes@[t] == o.nodes@[t] by {}
            // the old root's subtree is intact
            assert forall|t: int| #[trigger]
                subtree(o.nodes@, r0 as int, l0).contains(t) implies f.nodes@[t]
                == o.nodes@[t] by {
                assert(0 <= t < o.nodes@.len());
                assert((t as usize) as int == t);
                assert(!o.free_nodes@.contains(t as usize)) by {
                    if o.free_nodes@.contains(t as usize) {
                        let fi = choose|fi: int|
                            0 <= fi < o.free_nodes@.len() && o.free_nodes@[fi] == t as usize;
                        assert(!subtree(o.nodes@, o.root as int, l0).contains(
                            o.free_nodes@[fi] as int,
                        ));
                    }
                }
                assert(t != nr) by {
                    if o.free_nodes@.len() > 0 {
                    }
                }
            }
            lemma_frame(o.nodes@, f.nodes@, r0 as int, l0);
            // the new root's children
            assert forall|k: int| 0 <= k < 8 implies #[trigger] child(f.nodes@, nr as int, k)
                == ch[k] as int by {}
            assert(child(f.nodes@, nr as int, 0) == r0 as int);
            assert forall|k: int| 1 <= k < 8 implies f.nodes@[#[trigger] child(
                f.nodes@,
                nr as int,
                k,
            )] == Node::Leaf(EMPTY_VOXEL) && subtree(f.nodes@, child(f.nodes@, nr as int, k), l0)
                =~= set!{child(f.nodes@, nr as int, k)} by {}
            // allocated slots are outside the old root's subtree
            assert forall|k: int| 1 <= k < 8 implies !subtree(o.nodes@, r0 as int, l0).contains(
                #[trigger] child(f.nodes@, nr as int, k),
            ) by {
                let ck = child(f.nodes@, nr as int, k);
                if ck < o.nodes@.len() {
                    assert(o.free_nodes@.contains(ck as usize));
                    let fi = choose|fi: int|
                        0 <= fi < o.free_nodes@.len() && o.free_nodes@[fi] == ck as usize;
                    assert(!subtree(o.nodes@, o.root as int, l0).contains(
                        o.free_nodes@[fi] as int,
                    ));
                }
            }
            assert(!subtree(o.nodes@, r0 as int, l0).contains(nr as int)) by {
                if (nr as int) < o.nodes@.len() {
                    assert(o.free_nodes@.contains(nr));
                    let fi = choose|fi: int|
                        0 <= fi < o.free_nodes@.len() && o.free_nodes@[fi] == nr;
                    assert(!subtree(o.nodes@, o.root as int, l0).contains(
                        o.free_nodes@[fi] as int,
                    ));
                }
            }
            // the nine slots are pairwise distinct
            assert(c1 != c2 && c1 != c3 && c1 != c4 && c1 != c5 && c1 != c6 && c1 != c7);
            assert(c2 != c3 && c2 != c4 && c2 != c5 && c2 != c6 && c2 != c7);
            assert(c3 != c4 && c3 != c5 && c3 != c6 && c3 != c7);
            assert(c4 != c5 && c4 != c6 && c4 != c7);
            assert(c5 != c6 && c5 != c7);
            assert(c6 != c7);
            assert(nr != c1 && nr != c2 && nr != c3 && nr != c4 && nr != c5 && nr != c6 && nr
                != c7);
            assert(subtree(o.nodes@, r0 as int, l0).contains(r0 as int));
            assert(r0 != c1 && r0 != c2 && r0 != c3 && r0 != c4 && r0 != c5 && r0 != c6 && r0
                != c7 && r0 != nr);
            // each child is well-formed and compressed at the old depth
            assert(wf_node(f.nodes@, r0 as int, l0) && compressed(f.nodes@, r0 as int, l0));
            assert forall|k: int| 1 <= k < 8 implies wf_node(
                f.nodes@,
                #[trigger] child(f.nodes@, nr as int, k),
                l0,
            ) && compressed(f.nodes@, child(f.nodes@, nr as int, k), l0) by {
                assert(f.nodes@[child(f.nodes@, nr as int, k)] == Node::Leaf(EMPTY_VOXEL));
            }
            // well-formed at the new depth
            assert(wf_node(f.nodes@, nr as int, l1));
            // compressed: octant 0 is no empty leaf
            assert(!mergeable(f.nodes@, nr as int)) by {
                if o.nodes@[r0 as int] is Leaf {
                    assert(f.nodes@[r0 as int] == o.nodes@[r0 as int]);
                    assert(f.nodes@[child(f.nodes@, nr as int, 1)] == Node::Leaf(EMPTY_VOXEL));
                }
            }
            assert(compressed(f.nodes@, nr as int, l1));
            // the free list avoids the new root's subtree
            assert forall|fi: int|
                0 <= fi < f.free_nodes@.len() implies !subtree(f.nodes@, nr as int, l1).contains(
                #[trigger] (f.free_nodes@[fi] as int),
            ) by {
                let fv = f.free_nodes@[fi];
                assert(o.free_nodes@[fi] == fv);
                assert(!subtree(o.nodes@, o.root as int, l0).contains(o.free_nodes@[fi] as int));
                assert(subtree(f.nodes@, nr as int, l1) == set!{nr as int}.union(
                    subtree(f.nodes@, child(f.nodes@, nr as int, 0), l0),
                ).union(subtree(f.nodes@, child(f.nodes@, nr as int, 1), l0)).union(
                    subtree(f.nodes@, child(f.nodes@, nr as int, 2), l0),
                ).union(subtree(f.nodes@, child(f.nodes@, nr as int, 3), l0)).union(
                    subtree(f.nodes@, child(f.nodes@, nr as int, 4), l0),
                ).union(subtree(f.nodes@, child(f.nodes@, nr as int, 5), l0)).union(
                    subtree(f.nodes@, child(f.nodes@, nr as int, 6), l0),
                ).union(subtree(f.nodes@, child(f.nodes@, nr as int, 7), l0)));
            }
            // values are preserved across the doubling
            Self::lemma_grow_values(o, f, r0, nr, l0);
        }
    }

    /// Writes `voxel` to every coordinate in the axis-aligned box
    /// `[offset, offset+extent)`.  A zero extent on any axis is a silent
    /// no-op; otherwise the domain first grows by the minimum number of
    /// doublings that make the box fit.
    #[verifier::rlimit(100)]
    pub fn set(&mut self, offset: [usize; 3], extent: [usize; 3], voxel: u32)
        requires
            old(self).wf(),
            offset[0] + extent[0] <= 0x8000_0000_0000_0000,
            offset[1] + extent[1] <= 0x8000_0000_0000_0000,
            offset[2] + extent[2] <= 0x8000_0000_0000_0000,
        ensures
            final(self).wf(),
            final(self).extent_log() >= old(self).extent_log(),
            (extent[0] == 0 || extent[1] == 0 || extent[2] == 0) ==> *final(self) == *old(self),
            (extent[0] > 0 && extent[1] > 0 && extent[2] > 0) ==> {
                &&& pow2(final(self).extent_log()) >= offset[0] + extent[0]
                &&& pow2(final(self).extent_log()) >= offset[1] + extent[1]
                &&& pow2(final(self).extent_log()) >= offset[2] + extent[2]
                &&& (final(self).extent_log() > old(self).extent_log() ==> (pow2(
                    (final(self).extent_log() - 1) as nat,
                ) < offset[0] + extent[0] || pow2((final(self).extent_log() - 1) as nat) < offset[1]
                    + extent[1] || pow2((final(self).extent_log() - 1) as nat) < offset[2]
                    + extent[2]))
            },
            forall|x: int, y: int, z: int|
                #[trigger] final(self).at(x, y, z) == (if in_box(
                    offset[0] as int,
                    offset[1] as int,
                    offset[2] as int,
                    extent[0] as int,
                    extent[1] as int,
                    extent[2] as int,
                    x,
                    y,
                    z,
                ) {
                    voxel
                } else {
                    old(self).at(x, y, z)
                }),
    {
        if extent[0] == 0 || extent[1] == 0 || extent[2] == 0 {
            return;
        }
        let nx = offset[0] as u64 + extent[0] as u64;
        let ny = offset[1] as u64 + extent[1] as u64;
        let nz = offset[2] as u64 + extent[2] as u64;
        let mut needed = nx;
        if ny > needed {
            needed = ny;
        }
        if nz > needed {
            needed = nz;
        }
        proof {
            vstd::bits::lemma_u64_pow2_no_overflow(self.log_extent as nat);
            vstd::bits::lemma_u64_shl_is_mul(1u64, self.log_extent as u64);
        }
        while needed > (1u64 << (self.log_extent as u64))
            invariant
                self.wf(),
                1 <= needed <= 0x8000_0000_0000_0000u64,
                needed >= nx && needed >= ny && needed >= nz,
                needed == nx || needed == ny || needed == nz,
                nx == offset[0] + extent[0],
                ny == offset[1] + extent[1],
                nz == offset[2] + extent[2],
                self.extent_log() >= old(self).extent_log(),
                self.extent_log() > old(self).extent_log() ==> pow2(
                    (self.extent_log() - 1) as nat,
                ) < needed,
                forall|x: int, y: int, z: int|
                    #[trigger] self.at(x, y, z) == old(self).at(x, y, z),
            decreases 64 - self.log_extent,
        {
            proof {
                vstd::bits::lemma_u64_pow2_no_overflow(self.log_extent as nat);
                vstd::bits::lemma_u64_shl_is_mul(1u64, self.log_extent as u64);
                if self.log_extent == 63 {
                    assert(pow2(63) == 0x8000_0000_0000_0000) by {
                        vstd::arithmetic::power2::lemma2_to64_rest();
                    }
                    assert(false);
                }
            }
            self.grow_once();
            proof {
                vstd::bits::lemma_u64_pow2_no_overflow(self.log_extent as nat);
                vstd::bits::lemma_u64_shl_is_mul(1u64, self.log_extent as u64);
                vstd::arithmetic::power2::lemma_pow2_unfold(self.log_extent as nat);
            }
        }
        proof {
            vstd::bits::lemma_u64_pow2_no_overflow(self.log_extent as nat);
            vstd::bits::lemma_u64_shl_is_mul(1u64, self.log_extent as u64);
            assert(paint_pre(*self, self.root as int, self.log_extent as nat));
        }
        let ghost grown = *self;
        let r = self.root;
        let dl = self.log_extent as u64;
        self.set_descend(
            offset[0] as u64,
            offset[1] as u64,
            offset[2] as u64,
            extent[0] as u64,
            extent[1] as u64,
            extent[2] as u64,
            voxel,
            r,
            dl,
        );
        proof {
            let f = *self;
            let ln = grown.log_extent as nat;
            assert(f.log_extent == grown.log_extent && f.root == grown.root);
            assert forall|x: int, y: int, z: int|
                #[trigger] f.at(x, y, z) == (if in_box(
                    offset[0] as int,
                    offset[1] as int,
                    offset[2] as int,
                    extent[0] as int,
                    extent[1] as int,
                    extent[2] as int,
                    x,
                    y,
                    z,
                ) {
                    voxel
                } else {
                    old(self).at(x, y, z)
                }) by {
                if 0 <= x < pow2(ln) && 0 <= y < pow2(ln) && 0 <= z < pow2(ln) {
                    assert(value_at(f.nodes@, f.root as int, ln, x, y, z) == (if in_box(
                        offset[0] as int,
                        offset[1] as int,
                        offset[2] as int,
                        extent[0] as int,
                        extent[1] as int,
                        extent[2] as int,
                        x,
                        y,
                        z,
                    ) {
                        voxel
                    } else {
                        value_at(grown.nodes@, grown.root as int, ln, x, y, z)
                    }));
                    assert(grown.at(x, y, z) == old(self).at(x, y, z));
                } else {
                    assert(f.at(x, y, z) == EMPTY_VOXEL);
                    assert(!in_box(
                        offset[0] as int,
                        offset[1] as int,
                        offset[2] as int,
                        extent[0] as int,
                        extent[1] as int,
                        extent[2] as int,
                        x,
                        y,
                        z,
                    ));
                    assert(old(self).at(x, y, z) == EMPTY_VOXEL) by {
                        assert(grown.at(x, y, z) == old(self).at(x, y, z));
                    }
                }
            }
            assert forall|fi: int|
                0 <= fi < f.free_nodes@.len() implies !subtree(
                f.nodes@,
                f.root as int,
                ln,
            ).contains(#[trigger] (f.free_nodes@[fi] as int)) by {
                assert(f.free_nodes@.contains(f.free_nodes@[fi]));
            }
        }
    }

    /// Collects one `(corner, side-length)` box per non-empty leaf, visited
    /// in octant order from the domain corner.
    pub fn debug_boxes(&self) -> (r: Vec<([usize; 3], usize)>)
        requires
            self.wf(),
            pow2(self.extent_log()) <= usize::MAX,
        ensures
            r@ == self.debug_boxes_spec(),
    {
        let mut acc: Vec<([usize; 3], usize)> = Vec::new();
        let d = self.log_extent as u64;
        self.debug_boxes_descend(&mut acc, self.root, 0, 0, 0, d);
        acc
    }

    /// Appends the boxes of the subtree at `i`, whose cube has corner
    /// `(cx, cy, cz)` and side `2^d`.
    #[verifier::rlimit(100)]
    fn debug_boxes_descend(
        &self,
        acc: &mut Vec<([usize; 3], usize)>,
        i: usize,
        cx: usize,
        cy: usize,
        cz: usize,
        d: u64,
    )
        requires
            self.wf(),
            wf_node(self.nodes@, i as int, d as nat),
            d <= 63,
            cx + pow2(d as nat) <= usize::MAX,
            cy + pow2(d as nat) <= usize::MAX,
            cz + pow2(d as nat) <= usize::MAX,
        ensures
            final(acc)@ == old(acc)@ + boxes_of(
                self.nodes@,
                i as int,
                d as nat,
                cx as int,
                cy as int,
                cz as int,
            ),
        decreases d,
    {
        proof {
            vstd::bits::lemma_u64_pow2_no_overflow(d as nat);
            vstd::bits::lemma_u64_shl_is_mul(1u64, d);
        }
        match self.nodes[i] {
            Node::Leaf(v) => {
                if v != EMPTY_VOXEL {
                    let side = (1u64 << d) as usize;
                    acc.push(([cx, cy, cz], side));
                    proof {
                        assert(final(acc)@ =~= old(acc)@ + boxes_of(
                            self.nodes@,
                            i as int,
                            d as nat,
                            cx as int,
                            cy as int,
                            cz as int,
                        ));
                    }
                } else {
                    proof {
                        assert(final(acc)@ =~= old(acc)@ + boxes_of(
                            self.nodes@,
                            i as int,
                            d as nat,
                            cx as int,
                            cy as int,
                            cz as int,
                        ));
                    }
                }
            },
            Node::Branch(ch) => {
                proof {
                    vstd::arithmetic::power2::lemma_pow2_unfold(d as nat);
                    vstd::bits::lemma_u64_pow2_no_overflow((d - 1) as nat);
                    vstd::bits::lemma_u64_shl_is_mul(1u64, (d - 1) as u64);
                    assert(child(self.nodes@, i as int, 0) == ch[0] as int);
                    assert(child(self.nodes@, i as int, 1) == ch[1] as int);
                    assert(child(self.nodes@, i as int, 2) == ch[2] as int);
                    assert(child(self.nodes@, i as int, 3) == ch[3] as int);
                    assert(child(self.nodes@, i as int, 4) == ch[4] as int);
                    assert(child(self.nodes@, i as int, 5) == ch[5] as int);
                    assert(child(self.nodes@, i as int, 6) == ch[6] as int);
                    assert(child(self.nodes@, i as int, 7) == ch[7] as int);
                    assert(wf_node(self.nodes@, ch[0] as int, (d - 1) as nat));
                    assert(wf_node(self.nodes@, ch[1] as int, (d - 1) as nat));
                    assert(wf_node(self.nodes@, ch[2] as int, (d - 1) as nat));
                    assert(wf_node(self.nodes@, ch[3] as int, (d - 1) as nat));
                    assert(wf_node(self.nodes@, ch[4] as int, (d - 1) as nat));
                    assert(wf_node(self.nodes@, ch[5] as int, (d - 1) as nat));
                    assert(wf_node(self.nodes@, ch[6] as int, (d - 1) as nat));
                    assert(wf_node(self.nodes@, ch[7] as int, (d - 1) as nat));
                }
                let ghost nodes = self.nodes@;
                let ghost ii = i as int;
                let ghost dn = d as nat;
                let ghost dm = (d - 1) as nat;
                let ghost cxi = cx as int;
                let ghost cyi = cy as int;
                let ghost czi = cz as int;
                let h = (1u64 << (d - 1)) as usize;
                let ghost a0 = acc@;
                self.debug_boxes_descend(acc, ch[0], cx, cy, cz, d - 1);
                self.debug_boxes_descend(acc, ch[1], cx + h, cy, cz, d - 1);
                self.debug_boxes_descend(acc, ch[2], cx, cy + h, cz, d - 1);
                self.debug_boxes_descend(acc, ch[3], cx + h, cy + h, cz, d - 1);
                self.debug_boxes_descend(acc, ch[4], cx, cy, cz + h, d - 1);
                self.debug_boxes_descend(acc, ch[5], cx + h, cy, cz + h, d - 1);
                self.debug_boxes_descend(acc, ch[6], cx, cy + h, cz + h, d - 1);
                self.debug_boxes_descend(acc, ch[7], cx + h, cy + h, cz + h, d - 1);
                proof {
                    lemma_boxes_assemble(nodes, ii, dn, cxi, cyi, czi, a0, acc@);
                }
            },
        }
    }

    /// Allocates one leaf slot, reusing the free list before growing the
    /// arena.
    fn new_leaf(&mut self, v: u32) -> (i: usize)
        requires
            free_ok(old(self).nodes@, old(self).free_nodes@),
        ensures
            free_ok(final(self).nodes@, final(self).free_nodes@),
            final(self).root == old(self).root,
            final(self).log_extent == old(self).log_extent,
            i < final(self).nodes@.len(),
            final(self).nodes@[i as int] == Node::Leaf(v),
            final(self).nodes@.len() >= old(self).nodes@.len(),
            old(self).free_nodes@.len() > 0 ==> {
                &&& i == old(self).free_nodes@[old(self).free_nodes@.len() - 1]
                &&& final(self).free_nodes@ == old(self).free_nodes@.drop_last()
                &&& final(self).nodes@ == old(self).nodes@.update(i as int, Node::Leaf(v))
            },
            old(self).free_nodes@.len() == 0 ==> {
                &&& i == old(self).nodes@.len()
                &&& final(self).free_nodes@ == old(self).free_nodes@
                &&& final(self).nodes@ == old(self).nodes@.push(Node::Leaf(v))
            },
    {
        match self.free_nodes.pop() {
            Some(i) => {
                self.nodes[i] = Node::Leaf(v);
                i
            },
            None => {
                self.nodes.push(Node::Leaf(v));
                self.nodes.len() - 1
            },
        }
    }

    /// Frees the eight child subtrees of the branch at `i`; the arena
    /// contents (including slot `i` itself) are untouched.
    fn drop_children(&mut self, i: usize, Ghost(d): Ghost<nat>)
        requires
            wf_node(old(self).nodes@, i as int, d),
            old(self).nodes@[i as int] is Branch,
            free_ok(old(self).nodes@, old(self).free_nodes@),
            forall|fi: int|
                0 <= fi < old(self).free_nodes@.len() ==> !subtree(
                    old(self).nodes@,
                    i as int,
                    d,
                ).contains(#[trigger] (old(self).free_nodes@[fi] as int)),
        ensures
            final(self).nodes@ == old(self).nodes@,
            final(self).root == old(self).root,
            final(self).log_extent == old(self).log_extent,
            free_ok(final(self).nodes@, final(self).free_nodes@),
            forall|f: usize|
                #[trigger] final(self).free_nodes@.contains(f) <==> (old(
                    self,
                ).free_nodes@.contains(f) || (subtree(old(self).nodes@, i as int, d).contains(
                    f as int,
                ) && f != i)),
    {
        proof {
            lemma_subtree_bounds(old(self).nodes@, i as int, d);
        }
        let node = self.nodes[i];
        match node {
            Node::Branch(ch) => {
                let ghost pre = *self;
                let ghost dm1 = (d - 1) as nat;
                proof {
                    assert forall|k: int|
                        0 <= k < 8 implies #[trigger] child(pre.nodes@, i as int, k) == ch[k] as int by {}
                }
                let mut k: usize = 0;
                while k < 8
                    invariant
                        0 <= k <= 8,
                        self.nodes@ == pre.nodes@,
                        self.root == pre.root,
                        self.log_extent == pre.log_extent,
                        pre.nodes@[i as int] == Node::Branch(ch),
                        i < pre.nodes@.len(),
                        wf_node(pre.nodes@, i as int, d),
                        d >= 1,
                        dm1 == (d - 1) as nat,
                        free_ok(self.nodes@, self.free_nodes@),
                        forall|f: usize|
                            #[trigger] self.free_nodes@.contains(f) <==> (pre.free_nodes@.contains(
                                f,
                            ) || exists|j: int|
                                0 <= j < k && subtree(
                                    pre.nodes@,
                                    #[trigger] child(pre.nodes@, i as int, j),
                                    dm1,
                                ).contains(f as int)),
                        forall|fi: int|
                            0 <= fi < pre.free_nodes@.len() ==> !subtree(
                                pre.nodes@,
                                i as int,
                                d,
                            ).contains(#[trigger] (pre.free_nodes@[fi] as int)),
                    decreases 8 - k,
                {
                    proof {
                        assert(child(pre.nodes@, i as int, k as int) == ch[k as int] as int);
                        assert(wf_node(pre.nodes@, child(pre.nodes@, i as int, k as int), dm1));
                        lemma_subtree_child_subset(pre.nodes@, i as int, d, k as int);
                        lemma_subtree_bounds(pre.nodes@, child(pre.nodes@, i as int, k as int), dm1);
                        assert forall|fi: int|
                            0 <= fi < self.free_nodes@.len() implies !subtree(
                            self.nodes@,
                            ch[k as int] as int,
                            dm1,
                        ).contains(#[trigger] (self.free_nodes@[fi] as int)) by {
                            let f = self.free_nodes@[fi];
                            assert(self.free_nodes@.contains(f));
                            if pre.free_nodes@.contains(f) {
                                let gi = choose|gi: int|
                                    0 <= gi < pre.free_nodes@.len() && pre.free_nodes@[gi] == f;
                                assert(!subtree(pre.nodes@, i as int, d).contains(
                                    pre.free_nodes@[gi] as int,
                                ));
                            } else {
                                let j = choose|j: int|
                                    0 <= j < k && subtree(
                                        pre.nodes@,
                                        #[trigger] child(pre.nodes@, i as int, j),
                                        dm1,
                                    ).contains(f as int);
                                assert(subtree(pre.nodes@, child(pre.nodes@, i as int, j), dm1).disjoint(
                                    subtree(pre.nodes@, child(pre.nodes@, i as int, k as int), dm1),
                                ));
                            }
                        }
                    }
                    self.drop_node(ch[k], Ghost(dm1));
                    k += 1;
                }
                proof {
                    assert(subtree(pre.nodes@, i as int, d) == set!{i as int}.union(
                        subtree(pre.nodes@, child(pre.nodes@, i as int, 0), dm1),
                    ).union(subtree(pre.nodes@, child(pre.nodes@, i as int, 1), dm1)).union(
                        subtree(pre.nodes@, child(pre.nodes@, i as int, 2), dm1),
                    ).union(subtree(pre.nodes@, child(pre.nodes@, i as int, 3), dm1)).union(
                        subtree(pre.nodes@, child(pre.nodes@, i as int, 4), dm1),
                    ).union(subtree(pre.nodes@, child(pre.nodes@, i as int, 5), dm1)).union(
                        subtree(pre.nodes@, child(pre.nodes@, i as int, 6), dm1),
                    ).union(subtree(pre.nodes@, child(pre.nodes@, i as int, 7), dm1)));
                    assert forall|f: usize|
                        #[trigger] self.free_nodes@.contains(f) <==> (pre.free_nodes@.contains(f)
                            || (subtree(pre.nodes@, i as int, d).contains(f as int) && f != i)) by {
                        if self.free_nodes@.contains(f) && !pre.free_nodes@.contains(f) {
                            let j = choose|j: int|
                                0 <= j < 8 && subtree(
                                    pre.nodes@,
                                    #[trigger] child(pre.nodes@, i as int, j),
                                    dm1,
                                ).contains(f as int);
                            lemma_subtree_child_subset(pre.nodes@, i as int, d, j);
                            assert(!subtree(pre.nodes@, child(pre.nodes@, i as int, j), dm1).contains(
                                i as int,
                            ));
                            assert(subtree(pre.nodes@, i as int, d).contains(f as int) && f != i);
                        }
                        if subtree(pre.nodes@, i as int, d).contains(f as int) && f != i {
                            assert(exists|j: int|
                                0 <= j < 8 && subtree(
                                    pre.nodes@,
                                    #[trigger] child(pre.nodes@, i as int, j),
                                    dm1,
                                ).contains(f as int));
                        }
                    }
                }
            },
            Node::Leaf(_) => {
                proof {
                    assert(false);
                }
            },
        }
    }

    /// Turns the leaf at `i` into a branch whose eight children are fresh
    /// leaves all carrying the prior value: a pure refinement.
    #[verifier::rlimit(60)]
    fn split_leaf(&mut self, i: usize)
        requires
            free_ok(old(self).nodes@, old(self).free_nodes@),
            i < old(self).nodes@.len(),
            old(self).nodes@[i as int] is Leaf,
            forall|fi: int| 0 <= fi < old(self).free_nodes@.len() ==> old(self).free_nodes@[fi] != i,
        ensures
            final(self).root == old(self).root,
            final(self).log_extent == old(self).log_extent,
            free_ok(final(self).nodes@, final(self).free_nodes@),
            old(self).nodes@.len() <= final(self).nodes@.len() <= old(self).nodes@.len() + 8,
            final(self).nodes@[i as int] is Branch,
            fresh_branch_of(final(self).nodes@, i as int, old(self).nodes@[i as int]->Leaf_0),
            forall|k: int|
                0 <= k < 8 ==> {
                    &&& (old(self).free_nodes@.contains(
                        #[trigger] child(final(self).nodes@, i as int, k) as usize,
                    ) || child(final(self).nodes@, i as int, k) >= old(self).nodes@.len())
                    &&& !final(self).free_nodes@.contains(
                        child(final(self).nodes@, i as int, k) as usize,
                    )
                },
            final(self).free_nodes@.len() <= old(self).free_nodes@.len(),
            final(self).free_nodes@ == old(self).free_nodes@.take(final(self).free_nodes@.len() as int),
            forall|t: int|
                0 <= t < old(self).nodes@.len() && t != i && !old(self).free_nodes@.contains(
                    t as usize,
                ) ==> final(self).nodes@[t] == old(self).nodes@[t],
    {
        let v0 = match self.nodes[i] {
            Node::Leaf(v) => v,
            Node::Branch(_) => {
                proof {
                    assert(false);
                }
                0
            },
        };
        let c0 = self.new_leaf(v0);
        let c1 = self.new_leaf(v0);
        let c2 = self.new_leaf(v0);
        let c3 = self.new_leaf(v0);
        let c4 = self.new_leaf(v0);
        let c5 = self.new_leaf(v0);
        let c6 = self.new_leaf(v0);
        let c7 = self.new_leaf(v0);
        let ch = [c0, c1, c2, c3, c4, c5, c6, c7];
        self.nodes[i] = Node::Branch(ch);
        proof {
            assert forall|k: int| 0 <= k < 8 implies #[trigger] child(self.nodes@, i as int, k)
                == ch[k] as int by {}
        }
    }

    /// If the branch at `i` has eight leaf children sharing one value, frees
    /// the children and rewrites `i` as a leaf with that value; otherwise a
    /// no-op.  The sole place the compression invariant is enforced.
    fn merge_branch(&mut self, i: usize, Ghost(d): Ghost<nat>)
        requires
            wf_node(old(self).nodes@, i as int, d),
            old(self).nodes@[i as int] is Branch,
            forall|k: int|
                0 <= k < 8 ==> compressed(
                    old(self).nodes@,
                    #[trigger] child(old(self).nodes@, i as int, k),
                    (d - 1) as nat,
                ),
            free_ok(old(self).nodes@, old(self).free_nodes@),
            forall|fi: int|
                0 <= fi < old(self).free_nodes@.len() ==> !subtree(
                    old(self).nodes@,
                    i as int,
                    d,
                ).contains(#[trigger] (old(self).free_nodes@[fi] as int)),
        ensures
            final(self).nodes@.len() == old(self).nodes@.len(),
            final(self).root == old(self).root,
            final(self).log_extent == old(self).log_extent,
            wf_node(final(self).nodes@, i as int, d),
            compressed(final(self).nodes@, i as int, d),
            forall|x: int, y: int, z: int|
                #[trigger] value_at(final(self).nodes@, i as int, d, x, y, z) == value_at(
                    old(self).nodes@,
                    i as int,
                    d,
                    x,
                    y,
                    z,
                ),
            forall|t: int|
                0 <= t < old(self).nodes@.len() && t != i ==> final(self).nodes@[t] == old(
                    self,
                ).nodes@[t],
            forall|t: int|
                #[trigger] subtree(final(self).nodes@, i as int, d).contains(t) ==> subtree(
                    old(self).nodes@,
                    i as int,
                    d,
                ).contains(t),
            free_ok(final(self).nodes@, final(self).free_nodes@),
            forall|f: usize|
                old(self).free_nodes@.contains(f) ==> final(self).free_nodes@.contains(f),
            forall|f: usize|
                #[trigger] final(self).free_nodes@.contains(f) ==> (old(
                    self,
                ).free_nodes@.contains(f) || (subtree(old(self).nodes@, i as int, d).contains(
                    f as int,
                ) && f != i)),
            forall|f: usize|
                #[trigger] final(self).free_nodes@.contains(f) ==> !subtree(
                    final(self).nodes@,
                    i as int,
                    d,
                ).contains(f as int),
            !mergeable(old(self).nodes@, i as int) ==> *final(self) == *old(self),
            mergeable(old(self).nodes@, i as int) ==> {
                &&& final(self).nodes@[i as int] == Node::Leaf(
                    old(self).nodes@[child(old(self).nodes@, i as int, 0)]->Leaf_0,
                )
                &&& forall|k: int|
                    0 <= k < 8 ==> final(self).free_nodes@.contains(
                        (#[trigger] child(old(self).nodes@, i as int, k)) as usize,
                    )
            },
    {
        proof {
            lemma_subtree_bounds(old(self).nodes@, i as int, d);
        }
        let ch = match self.nodes[i] {
            Node::Branch(c) => c,
            Node::Leaf(_) => {
                proof {
                    assert(false);
                }
                [0; 8]
            },
        };
        proof {
            assert forall|k: int| 0 <= k < 8 implies #[trigger] child(self.nodes@, i as int, k)
                == ch[k] as int by {}
            assert(wf_node(self.nodes@, child(self.nodes@, i as int, 0), (d - 1) as nat));
        }
        let v0 = match self.nodes[ch[0]] {
            Node::Leaf(v) => v,
            Node::Branch(_) => {
                return;
            },
        };
        let ghost pre = *self;
        let mut k: usize = 1;
        while k < 8
            invariant
                1 <= k <= 8,
                *self == pre,
                pre == *old(self),
                pre.nodes@[i as int] == Node::Branch(ch),
                i < pre.nodes@.len(),
                wf_node(pre.nodes@, i as int, d),
                d >= 1,
                forall|kk: int|
                    0 <= kk < 8 ==> #[trigger] child(pre.nodes@, i as int, kk) == ch[kk] as int,
                pre.nodes@[ch[0] as int] == Node::Leaf(v0),
                forall|j: int|
                    0 <= j < k ==> pre.nodes@[#[trigger] child(pre.nodes@, i as int, j)]
                        == Node::Leaf(v0),
                forall|kk: int|
                    0 <= kk < 8 ==> compressed(
                        pre.nodes@,
                        #[trigger] child(pre.nodes@, i as int, kk),
                        (d - 1) as nat,
                    ),
                free_ok(pre.nodes@, pre.free_nodes@),
                forall|fi: int|
                    0 <= fi < pre.free_nodes@.len() ==> !subtree(
                        pre.nodes@,
                        i as int,
                        d,
                    ).contains(#[trigger] (pre.free_nodes@[fi] as int)),
            decreases 8 - k,
        {
            proof {
                assert(wf_node(pre.nodes@, child(pre.nodes@, i as int, k as int), (d - 1) as nat));
            }
            let stop = match self.nodes[ch[k]] {
                Node::Leaf(w) => w != v0,
                Node::Branch(_) => true,
            };
            if stop {
                proof {
                    assert(!mergeable(pre.nodes@, i as int));
                    assert forall|f: usize|
                        #[trigger] self.free_nodes@.contains(f) implies !subtree(
                        self.nodes@,
                        i as int,
                        d,
                    ).contains(f as int) by {
                        let fi = choose|fi: int|
                            0 <= fi < self.free_nodes@.len() && self.free_nodes@[fi] == f;
                        assert(!subtree(pre.nodes@, i as int, d).contains(
                            pre.free_nodes@[fi] as int,
                        ));
                    }
                }
                return;
            }
            k += 1;
        }
        proof {
            assert(mergeable(pre.nodes@, i as int));
        }
        self.drop_children(i, Ghost(d));
        self.nodes[i] = Node::Leaf(v0);
        proof {
            assert(subtree(self.nodes@, i as int, d) =~= set!{i as int});
            assert forall|k: int| 0 <= k < 8 implies self.free_nodes@.contains(
                (#[trigger] child(pre.nodes@, i as int, k)) as usize,
            ) by {
                let ck = child(pre.nodes@, i as int, k);
                assert(ck == ch[k] as int);
                assert(wf_node(pre.nodes@, ck, (d - 1) as nat));
                lemma_subtree_bounds(pre.nodes@, ck, (d - 1) as nat);
                lemma_subtree_child_subset(pre.nodes@, i as int, d, k);
                assert(subtree(pre.nodes@, i as int, d).contains(ck));
                assert(!subtree(pre.nodes@, ck, (d - 1) as nat).contains(i as int));
                assert((ck as usize) as int == ck);
            }
            assert forall|f: usize| #[trigger] self.free_nodes@.contains(f) implies f != i by {
                if pre.free_nodes@.contains(f) {
                    let fi = choose|fi: int|
                        0 <= fi < pre.free_nodes@.len() && pre.free_nodes@[fi] == f;
                    assert(!subtree(pre.nodes@, i as int, d).contains(pre.free_nodes@[fi] as int));
                }
            }
            assert forall|x: int, y: int, z: int|
                #[trigger] value_at(self.nodes@, i as int, d, x, y, z) == value_at(
                    pre.nodes@,
                    i as int,
                    d,
                    x,
                    y,
                    z,
                ) by {
                let h = pow2((d - 1) as nat) as int;
                let kk = octant_index(h, x, y, z);
                assert(0 <= kk < 8);
                let ck = child(pre.nodes@, i as int, kk);
                assert(wf_node(pre.nodes@, ck, (d - 1) as nat));
                assert(pre.nodes@[ck] == Node::Leaf(v0));
                assert(value_at(
                    pre.nodes@,
                    ck,
                    (d - 1) as nat,
                    local_coord(h, x),
                    local_coord(h, y),
                    local_coord(h, z),
                ) == v0);
                assert(value_at(self.nodes@, i as int, d, x, y, z) == v0);
            }
        }
    }

    /// Returns the whole subtree rooted at `i` to the free list.  The arena
    /// contents are untouched: only the free list grows.
    fn drop_node(&mut self, i: usize, Ghost(d): Ghost<nat>)
        requires
            wf_node(old(self).nodes@, i as int, d),
            free_ok(old(self).nodes@, old(self).free_nodes@),
            forall|fi: int|
                0 <= fi < old(self).free_nodes@.len() ==> !subtree(
                    old(self).nodes@,
                    i as int,
                    d,
                ).contains(#[trigger] (old(self).free_nodes@[fi] as int)),
        ensures
            final(self).nodes@ == old(self).nodes@,
            final(self).root == old(self).root,
            final(self).log_extent == old(self).log_extent,
            free_ok(final(self).nodes@, final(self).free_nodes@),
            forall|f: usize|
                #[trigger] final(self).free_nodes@.contains(f) <==> (old(
                    self,
                ).free_nodes@.contains(f) || subtree(old(self).nodes@, i as int, d).contains(
                    f as int,
                )),
        decreases d,
    {
        proof {
            lemma_subtree_bounds(old(self).nodes@, i as int, d);
        }
        let node = self.nodes[i];
        match node {
            Node::Leaf(_) => {
                proof {
                    assert forall|fi: int|
                        0 <= fi < self.free_nodes@.len() implies self.free_nodes@[fi] != i by {
                        assert(!subtree(self.nodes@, i as int, d).contains(
                            self.free_nodes@[fi] as int,
                        ));
                    }
                }
                self.free_nodes.push(i);
                proof {
                    let pre = *old(self);
                    assert(subtree(pre.nodes@, i as int, d) =~= set!{i as int});
                    assert forall|f: usize| #[trigger]
                        self.free_nodes@.contains(f) <==> (pre.free_nodes@.contains(f) || subtree(
                            pre.nodes@,
                            i as int,
                            d,
                        ).contains(f as int)) by {
                        if self.free_nodes@.contains(f) {
                            let fi = choose|fi: int|
                                0 <= fi < self.free_nodes@.len() && self.free_nodes@[fi] == f;
                            if fi < pre.free_nodes@.len() {
                                assert(pre.free_nodes@.contains(f));
                            }
                        }
                        if pre.free_nodes@.contains(f) {
                            let fi = choose|fi: int|
                                0 <= fi < pre.free_nodes@.len() && pre.free_nodes@[fi] == f;
                            assert(self.free_nodes@[fi] == f);
                        }
                        if subtree(pre.nodes@, i as int, d).contains(f as int) {
                            assert(f == i);
                            assert(self.free_nodes@[self.free_nodes@.len() - 1] == i);
                        }
                    }
                }
            },
            Node::Branch(ch) => {
                let ghost pre = *self;
                let ghost dm1 = (d - 1) as nat;
                proof {
                    assert forall|k: int| 0 <= k < 8 implies #[trigger] child(pre.nodes@, i as int, k)
                        == ch[k] as int by {}
                }
                let mut k: usize = 0;
                while k < 8
                    invariant
                        0 <= k <= 8,
                        self.nodes@ == pre.nodes@,
                        self.root == pre.root,
                        self.log_extent == pre.log_extent,
                        pre.nodes@[i as int] == Node::Branch(ch),
                        i < pre.nodes@.len(),
                        wf_node(pre.nodes@, i as int, d),
                        d >= 1,
                        dm1 == (d - 1) as nat,
                        free_ok(self.nodes@, self.free_nodes@),
                        forall|f: usize|
                            #[trigger] self.free_nodes@.contains(f) <==> (pre.free_nodes@.contains(
                                f,
                            ) || exists|j: int|
                                0 <= j < k && subtree(
                                    pre.nodes@,
                                    #[trigger] child(pre.nodes@, i as int, j),
                                    dm1,
                                ).contains(f as int)),
                        forall|fi: int|
                            0 <= fi < pre.free_nodes@.len() ==> !subtree(
                                pre.nodes@,
                                i as int,
                                d,
                            ).contains(#[trigger] (pre.free_nodes@[fi] as int)),
                    decreases 8 - k,
                {
                    proof {
                        assert(child(pre.nodes@, i as int, k as int) == ch[k as int] as int);
                        assert(wf_node(pre.nodes@, child(pre.nodes@, i as int, k as int), dm1));
                        lemma_subtree_child_subset(pre.nodes@, i as int, d, k as int);
                        lemma_subtree_bounds(pre.nodes@, child(pre.nodes@, i as int, k as int), dm1);
                        assert forall|fi: int|
                            0 <= fi < self.free_nodes@.len() implies !subtree(
                            self.nodes@,
                            ch[k as int] as int,
                            dm1,
                        ).contains(#[trigger] (self.free_nodes@[fi] as int)) by {
                            let f = self.free_nodes@[fi];
                            assert(self.free_nodes@.contains(f));
                            if pre.free_nodes@.contains(f) {
                                let gi = choose|gi: int|
                                    0 <= gi < pre.free_nodes@.len() && pre.free_nodes@[gi] == f;
                                assert(!subtree(pre.nodes@, i as int, d).contains(
                                    pre.free_nodes@[gi] as int,
                                ));
                            } else {
                                let j = choose|j: int|
                                    0 <= j < k && subtree(
                                        pre.nodes@,
                                        #[trigger] child(pre.nodes@, i as int, j),
                                        dm1,
                                    ).contains(f as int);
                                assert(subtree(pre.nodes@, child(pre.nodes@, i as int, j), dm1).disjoint(
                                    subtree(pre.nodes@, child(pre.nodes@, i as int, k as int), dm1),
                                ));
                            }
                        }
                    }
                    self.drop_node(ch[k], Ghost(dm1));
                    k += 1;
                }
                proof {
                    lemma_subtree_bounds(pre.nodes@, i as int, d);
                    assert forall|fi: int|
                        0 <= fi < self.free_nodes@.len() implies self.free_nodes@[fi] != i by {
                        let f = self.free_nodes@[fi];
                        assert(self.free_nodes@.contains(f));
                        if pre.free_nodes@.contains(f) {
                            let gi = choose|gi: int|
                                0 <= gi < pre.free_nodes@.len() && pre.free_nodes@[gi] == f;
                            assert(!subtree(pre.nodes@, i as int, d).contains(
                                pre.free_nodes@[gi] as int,
                            ));
                        } else {
                            let j = choose|j: int|
                                0 <= j < 8 && subtree(
                                    pre.nodes@,
                                    #[trigger] child(pre.nodes@, i as int, j),
                                    dm1,
                                ).contains(f as int);
                            assert(!subtree(pre.nodes@, child(pre.nodes@, i as int, j), dm1).contains(
                                i as int,
                            ));
                        }
                    }
                }
                let ghost loopfree = self.free_nodes@;
                self.free_nodes.push(i);
                proof {
                    assert(subtree(pre.nodes@, i as int, d) == set!{i as int}.union(
                        subtree(pre.nodes@, child(pre.nodes@, i as int, 0), dm1),
                    ).union(subtree(pre.nodes@, child(pre.nodes@, i as int, 1), dm1)).union(
                        subtree(pre.nodes@, child(pre.nodes@, i as int, 2), dm1),
                    ).union(subtree(pre.nodes@, child(pre.nodes@, i as int, 3), dm1)).union(
                        subtree(pre.nodes@, child(pre.nodes@, i as int, 4), dm1),
                    ).union(subtree(pre.nodes@, child(pre.nodes@, i as int, 5), dm1)).union(
                        subtree(pre.nodes@, child(pre.nodes@, i as int, 6), dm1),
                    ).union(subtree(pre.nodes@, child(pre.nodes@, i as int, 7), dm1)));
                    assert forall|f: usize| #[trigger]
                        self.free_nodes@.contains(f) <==> (pre.free_nodes@.contains(f) || subtree(
                            pre.nodes@,
                            i as int,
                            d,
                        ).contains(f as int)) by {
                        let fseq = self.free_nodes@;
                        assert(fseq == loopfree.push(i));
                        if fseq.contains(f) {
                            let fi = choose|fi: int| 0 <= fi < fseq.len() && fseq[fi] == f;
                            if fi < loopfree.len() {
                                assert(loopfree[fi] == f);
                                assert(loopfree.contains(f));
                                if !pre.free_nodes@.contains(f) {
                                    let j = choose|j: int|
                                        0 <= j < 8 && subtree(
                                            pre.nodes@,
                                            #[trigger] child(pre.nodes@, i as int, j),
                                            dm1,
                                        ).contains(f as int);
                                    lemma_subtree_child_subset(pre.nodes@, i as int, d, j);
                                    assert(subtree(pre.nodes@, i as int, d).contains(f as int));
                                }
                            } else {
                                assert(f == i);
                                assert(subtree(pre.nodes@, i as int, d).contains(i as int));
                            }
                        }
                        if pre.free_nodes@.contains(f) {
                            assert(loopfree.contains(f));
                            let fi = choose|fi: int| 0 <= fi < loopfree.len() && loopfree[fi] == f;
                            assert(fseq[fi] == f);
                            assert(fseq.contains(f));
                        }
                        if subtree(pre.nodes@, i as int, d).contains(f as int) {
                            if f == i {
                                assert(fseq[fseq.len() - 1] == i);
                                assert(fseq.contains(f));
                            } else {
                                assert(exists|j: int|
                                    0 <= j < 8 && subtree(
                                        pre.nodes@,
                                        #[trigger] child(pre.nodes@, i as int, j),
                                        dm1,
                                    ).contains(f as int));
                                assert(loopfree.contains(f));
                                let fi = choose|fi: int|
                                    0 <= fi < loopfree.len() && loopfree[fi] == f;
                                assert(fseq[fi] == f);
                                assert(fseq.contains(f));
                            }
                        }
                    }
                }
            },
        }
    }
}

/// The compression invariant, stated as a law: in a well-formed tree no
/// branch reachable from the root has eight leaf children sharing one value.
/// Since every mutating operation returns a well-formed tree, this holds in
/// particular after any `set`.
pub proof fn lemma_compression_invariant(t: Octree)
    requires
        t.wf(),
    ensures
        compressed(t.nodes_view(), t.root_index(), t.extent_log()),
{
}

/// Whether the buffer records node `j` as a leaf: its first child word is
/// the reserved `NIL_WORD`.
pub open spec fn buf_is_leaf(buf: Seq<u32>, j: int) -> bool {
    buf[4 + 12 * j + 1] == NIL_WORD
}

/// A query over the serialized buffer, walking records with the same octant
/// selector convention as `value_at`.
pub open spec fn buf_value_at(buf: Seq<u32>, j: int, d: nat, x: int, y: int, z: int) -> u32
    decreases d,
{
    if buf_is_leaf(buf, j) {
        buf[4 + 12 * j]
    } else if d == 0 {
        EMPTY_VOXEL
    } else {
        let h = pow2((d - 1) as nat) as int;
        buf_value_at(
            buf,
            buf[4 + 12 * j + 1 + octant_index(h, x, y, z)] as int,
            (d - 1) as nat,
            local_coord(h, x),
            local_coord(h, y),
            local_coord(h, z),
        )
    }
}

/// Round trip: querying the buffer that `gpu_data` produced, from record 0,
/// reproduces the tree's own values at every coordinate of the domain.
pub proof fn lemma_gpu_round_trip(t: Octree, buf: Seq<u32>, x: int, y: int, z: int)
    requires
        t.wf(),
        t.is_compacted(),
        t.node_count() <= 0xFFFF_FFFE,
        buf.len() == 4 + 12 * t.node_count(),
        forall|j: int| 0 <= j < t.node_count() ==> node_record(buf, t, j),
        0 <= x < pow2(t.extent_log()),
        0 <= y < pow2(t.extent_log()),
        0 <= z < pow2(t.extent_log()),
    ensures
        buf_value_at(buf, t.root_index(), t.extent_log(), x, y, z) == t.at(x, y, z),
{
    lemma_buf_walk(t, buf, t.root_index(), t.extent_log(), x, y, z);
}

/// The induction behind `lemma_gpu_round_trip`: record `j` of the buffer
/// reads back exactly as the arena node `j` does.
proof fn lemma_buf_walk(t: Octree, buf: Seq<u32>, j: int, d: nat, x: int, y: int, z: int)
    requires
        t.node_count() <= 0xFFFF_FFFE,
        buf.len() == 4 + 12 * t.node_count(),
        forall|jj: int| 0 <= jj < t.node_count() ==> node_record(buf, t, jj),
        wf_node(t.nodes_view(), j, d),
    ensures
        buf_value_at(buf, j, d, x, y, z) == value_at(t.nodes_view(), j, d, x, y, z),
    decreases d,
{
    let nodes = t.nodes_view();
    assert(node_record(buf, t, j));
    match nodes[j] {
        Node::Leaf(v) => {
            assert(buf[4 + 12 * j + 1 + 0] == NIL_WORD);
            assert(buf[4 + 12 * j + 1] == NIL_WORD);
            assert(buf[4 + 12 * j] == v);
        },
        Node::Branch(ch) => {
            assert(buf[4 + 12 * j + 1 + 0] == (ch[0] as u32));
            assert(buf[4 + 12 * j + 1] == (ch[0] as u32));
            assert(child(nodes, j, 0) == ch[0] as int);
            assert(wf_node(nodes, child(nodes, j, 0), (d - 1) as nat));
            assert(0 <= ch[0] < t.node_count());
            assert((ch[0] as u32) != NIL_WORD);
            assert(!buf_is_leaf(buf, j));
            let h = pow2((d - 1) as nat) as int;
            let oct = octant_index(h, x, y, z);
            assert(0 <= oct < 8);
            assert(buf[4 + 12 * j + 1 + oct] == (ch[oct] as u32));
            assert(child(nodes, j, oct) == ch[oct] as int);
            assert(wf_node(nodes, child(nodes, j, oct), (d - 1) as nat));
            assert(0 <= ch[oct] < t.node_count());
            assert((buf[4 + 12 * j + 1 + oct] as int) == ch[oct] as int);
            lemma_buf_walk(
                t,
                buf,
                ch[oct] as int,
                (d - 1) as nat,
                local_coord(h, x),
                local_coord(h, y),
                local_coord(h, z),
            );
        },
    }
}

} // verus!
