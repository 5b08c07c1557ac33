//! Mesh topology: assembling triangles from an index stream and building the
//! octree that partitions a mesh's triangles.

use vstd::prelude::*;
use crate::octree::{Octree, OctreeNode, OctreeNodeType, OCTANT_COUNT};

verus! {

/// Number of triangles at or below which a node becomes a leaf.
pub const MIN_OBJECTS: u32 = 4;

/// Depth of recursion at which subdivision stops.
pub const MAX_DEPTH: u32 = 5;

/// A triangle, given by the indices of its three vertices.
#[derive(Clone, Copy)]
pub struct Face {
    pub indices: [u32; 3],
}

/// The sign of an offset along one axis: 1 when `bit` is set in
/// `children_index`, and -1 when it is clear.
pub open spec fn spec_axis_sign(children_index: u32, bit: u32) -> i32 {
    if children_index & bit != 0u32 {
        1i32
    } else {
        -1i32
    }
}

/// The offset signs applied along x, y and z to place child `children_index`
/// of a node: bits 0, 1 and 2 of the index choose the positive (set) or
/// negative (clear) half of the parent box along x, y and z, so the eight
/// children are the eight octants of the parent.
pub open spec fn spec_octant_signs(children_index: u32) -> (i32, i32, i32) {
    (
        spec_axis_sign(children_index, 1u32),
        spec_axis_sign(children_index, 2u32),
        spec_axis_sign(children_index, 4u32),
    )
}

/// Computes the octant offset signs of child `children_index`.
pub fn octant_signs(children_index: u32) -> (signs: (i32, i32, i32))
    requires
        children_index < 8,
    ensures
        signs == spec_octant_signs(children_index),
{
    let x_sign: i32 = if children_index & 0b001 != 0 { 1 } else { -1 };
    let y_sign: i32 = if children_index & 0b010 != 0 { 1 } else { -1 };
    let z_sign: i32 = if children_index & 0b100 != 0 { 1 } else { -1 };
    (x_sign, y_sign, z_sign)
}

/// The items whose matching flag in `keep` is set, in their order.
pub open spec fn filter_by(items: Seq<u32>, keep: Seq<bool>) -> Seq<u32>
    decreases items.len(),
{
    if items.len() == 0 {
        Seq::empty()
    } else {
        let rest = filter_by(items.drop_last(), keep.take(items.len() - 1));
        if keep[items.len() - 1] {
            rest.push(items.last())
        } else {
            rest
        }
    }
}

/// The box that `child_box` answers for `parent_box` and `signs`.
pub open spec fn answered_box<B, C>(child_box: C, parent_box: B, signs: (i32, i32, i32)) -> B where
    C: Fn(&B, (i32, i32, i32)) -> B,
{
    choose|bounds: B| call_ensures(child_box, (&parent_box, signs), bounds)
}

/// What `overlaps` answers for `face` against `bounds`.
pub open spec fn answered_overlap<B, O>(overlaps: O, bounds: B, face: Face) -> bool where
    O: Fn(&B, &Face) -> bool,
{
    choose|inside: bool| call_ensures(overlaps, (&bounds, &face), inside)
}

/// Whether `child_box` gives one answer for each pair of arguments.
pub open spec fn places_deterministically<B, C>(child_box: C) -> bool where
    C: Fn(&B, (i32, i32, i32)) -> B,
{
    forall|parent_box: &B, signs: (i32, i32, i32), first: B, second: B|
        call_ensures(child_box, (parent_box, signs), first) && call_ensures(
            child_box,
            (parent_box, signs),
            second,
        ) ==> first == second
}

/// Whether `overlaps` gives one answer for each pair of arguments.
pub open spec fn tests_deterministically<B, O>(overlaps: O) -> bool where
    O: Fn(&B, &Face) -> bool,
{
    forall|bounds: &B, face: &Face, first: bool, second: bool|
        call_ensures(overlaps, (bounds, face), first) && call_ensures(overlaps, (bounds, face), second)
            ==> first == second
}

/// For each face of `node_faces`, whether `overlaps` reports it inside `bounds`.
pub open spec fn overlap_flags<B, O>(
    overlaps: O,
    bounds: B,
    node_faces: Seq<u32>,
    faces: Seq<Face>,
) -> Seq<bool> where O: Fn(&B, &Face) -> bool {
    Seq::new(
        node_faces.len(),
        |i: int| answered_overlap(overlaps, bounds, faces[node_faces[i] as int]),
    )
}

/// The faces of `node_faces` that `overlaps` reports inside `bounds`, in order.
pub open spec fn faces_inside<B, O>(
    overlaps: O,
    bounds: B,
    node_faces: Seq<u32>,
    faces: Seq<Face>,
) -> Seq<u32> where O: Fn(&B, &Face) -> bool {
    filter_by(node_faces, overlap_flags(overlaps, bounds, node_faces, faces))
}

/// Whether `node` is the branch that subdivision builds for the faces
/// `node_faces` of its box at recursion depth `depth`. It has eight child
/// slots; slot `k` belongs to the box that `child_box` places for the signs of
/// octant `k`, and to the faces of `node_faces` that `overlaps` reports inside
/// that box. The slot is empty when there are none; otherwise it holds a node
/// with that box: a leaf listing those faces when there are at most
/// `MIN_OBJECTS` of them or `depth` is `MAX_DEPTH`, and a branch subdivided in
/// turn at `depth + 1` otherwise.
pub open spec fn subdivided<B, C, O>(
    node: OctreeNode<u32, B>,
    node_faces: Seq<u32>,
    faces: Seq<Face>,
    depth: int,
    child_box: C,
    overlaps: O,
) -> bool where C: Fn(&B, (i32, i32, i32)) -> B, O: Fn(&B, &Face) -> bool
    decreases node,
{
    match node.octree_node_type {
        OctreeNodeType::OctreeLeaf { .. } => false,
        OctreeNodeType::OctreeBranch { children } => {
            &&& children@.len() == OCTANT_COUNT
            &&& forall|k: int|
                #![trigger children@[k]]
                0 <= k < OCTANT_COUNT ==> {
                    let bounds = answered_box(
                        child_box,
                        node.axis_aligned_bounding_box,
                        spec_octant_signs(k as u32),
                    );
                    let inside = faces_inside(overlaps, bounds, node_faces, faces);
                    match children@[k] {
                        None => inside.len() == 0,
                        Some(child) => {
                            &&& inside.len() > 0
                            &&& child.axis_aligned_bounding_box == bounds
                            &&& if inside.len() <= MIN_OBJECTS || depth == MAX_DEPTH {
                                &&& child.octree_node_type is OctreeLeaf
                                &&& child.octree_node_type->contents@ == inside
                            } else {
                                subdivided(*child, inside, faces, depth + 1, child_box, overlaps)
                            }
                        },
                    }
                }
        },
    }
}

/// The face numbers `0..count`, in order.
pub open spec fn all_faces(count: nat) -> Seq<u32> {
    Seq::new(count, |i: int| i as u32)
}

/// The position in `items` that entry `i` of `filter_by(items, keep)` comes
/// from.
pub open spec fn filter_source(items: Seq<u32>, keep: Seq<bool>, i: int) -> int
    decreases items.len(),
{
    if items.len() == 0 {
        0
    } else {
        let n = items.len() - 1;
        if i < filter_by(items.drop_last(), keep.take(n)).len() {
            filter_source(items.drop_last(), keep.take(n), i)
        } else {
            n
        }
    }
}

/// Every entry of a filtered sequence comes from a kept position.
pub proof fn lemma_filter_by_members(items: Seq<u32>, keep: Seq<bool>)
    requires
        keep.len() == items.len(),
    ensures
        filter_by(items, keep).len() <= items.len(),
        forall|i: int|
            0 <= i < filter_by(items, keep).len() ==> 0 <= #[trigger] filter_source(items, keep, i) < items.len()
                && keep[filter_source(items, keep, i)] && items[filter_source(items, keep, i)]
                == filter_by(items, keep)[i],
    decreases items.len(),
{
    if items.len() == 0 {
        assert(filter_by(items, keep).len() == 0);
    } else {
        let n = items.len() - 1;
        let rest_items = items.drop_last();
        let rest_keep = keep.take(n);
        lemma_filter_by_members(rest_items, rest_keep);
        let rest = filter_by(rest_items, rest_keep);
        assert(filter_by(items, keep) == if keep[n] { rest.push(items[n]) } else { rest });
        assert forall|i: int| 0 <= i < filter_by(items, keep).len() implies
            0 <= #[trigger] filter_source(items, keep, i) < items.len()
                && keep[filter_source(items, keep, i)] && items[filter_source(items, keep, i)]
                == filter_by(items, keep)[i] by {
            if i < rest.len() {
                assert(filter_by(items, keep)[i] == rest[i]);
                let j = filter_source(rest_items, rest_keep, i);
                assert(filter_source(items, keep, i) == j);
                assert(0 <= j < rest_items.len() && rest_keep[j] && rest_items[j] == rest[i]);
                assert(rest_items[j] == items[j]);
            } else {
                assert(filter_source(items, keep, i) == n);
            }
        }
    }
}

/// Extending the filtered prefix by one position.
proof fn lemma_filter_by_step(items: Seq<u32>, keep: Seq<bool>, j: int, kept: bool)
    requires
        0 <= j < items.len(),
        keep.len() == j,
    ensures
        filter_by(items.take(j + 1), keep.push(kept)) == if kept {
            filter_by(items.take(j), keep).push(items[j])
        } else {
            filter_by(items.take(j), keep)
        },
{
    let prefix = items.take(j + 1);
    assert(prefix.drop_last() == items.take(j));
    assert(keep.push(kept).take(j) == keep);
}

/// Builds the branch for the faces `faces_indices` of the box `bounds` at
/// recursion depth `depth`: for each of the eight octants, the child box that
/// `child_box` returns for the octant's signs, the faces that `overlaps`
/// reports inside it, and a leaf or a further branch for them.
fn generate_octree_children<B, C, O>(
    bounds: B,
    faces_indices: &Vec<u32>,
    faces: &Vec<Face>,
    child_box: &C,
    overlaps: &O,
    depth: u32,
) -> (node: OctreeNode<u32, B>) where C: Fn(&B, (i32, i32, i32)) -> B, O: Fn(&B, &Face) -> bool
    requires
        depth <= MAX_DEPTH,
        forall|i: int| 0 <= i < faces_indices.len() ==> faces_indices[i] < faces.len(),
        forall|b: &B, s: (i32, i32, i32)| #[trigger] call_requires(*child_box, (b, s)),
        forall|b: &B, f: &Face| #[trigger] call_requires(*overlaps, (b, f)),
        places_deterministically(*child_box),
        tests_deterministically(*overlaps),
    ensures
        node.axis_aligned_bounding_box == bounds,
        subdivided(node, faces_indices@, faces@, depth as int, *child_box, *overlaps),
    decreases MAX_DEPTH - depth,
{
    let mut children: Vec<Option<Box<OctreeNode<u32, B>>>> = Vec::new();
    let mut children_index: u32 = 0;
    while children_index < 8
        invariant
            depth <= MAX_DEPTH,
            forall|i: int| 0 <= i < faces_indices.len() ==> faces_indices[i] < faces.len(),
            forall|b: &B, s: (i32, i32, i32)| #[trigger] call_requires(*child_box, (b, s)),
            forall|b: &B, f: &Face| #[trigger] call_requires(*overlaps, (b, f)),
            places_deterministically(*child_box),
            tests_deterministically(*overlaps),
            children_index <= 8,
            children.len() == children_index,
            forall|k: int|
                #![trigger children@[k]]
                0 <= k < children_index ==> {
                    let child_bounds = answered_box(*child_box, bounds, spec_octant_signs(k as u32));
                    let inside = faces_inside(*overlaps, child_bounds, faces_indices@, faces@);
                    match children@[k] {
                        None => inside.len() == 0,
                        Some(child) => {
                            &&& inside.len() > 0
                            &&& child.axis_aligned_bounding_box == child_bounds
                            &&& if inside.len() <= MIN_OBJECTS || depth == MAX_DEPTH {
                                &&& child.octree_node_type is OctreeLeaf
                                &&& child.octree_node_type->contents@ == inside
                            } else {
                                subdivided(*child, inside, faces@, depth + 1, *child_box, *overlaps)
                            }
                        },
                    }
                },
        decreases 8 - children_index,
    {
        let signs = octant_signs(children_index);
        let child_bounds = child_box(&bounds, signs);
        let mut overlapping_faces: Vec<u32> = Vec::new();
        let ghost mut keep: Seq<bool> = Seq::empty();
        let mut j: usize = 0;
        while j < faces_indices.len()
            invariant
                forall|i: int| 0 <= i < faces_indices.len() ==> faces_indices[i] < faces.len(),
                forall|b: &B, f: &Face| #[trigger] call_requires(*overlaps, (b, f)),
                tests_deterministically(*overlaps),
                j <= faces_indices.len(),
                keep.len() == j,
                overlapping_faces@ == filter_by(faces_indices@.take(j as int), keep),
                forall|i: int|
                    0 <= i < j ==> #[trigger] keep[i] == answered_overlap(
                        *overlaps,
                        child_bounds,
                        faces@[faces_indices@[i] as int],
                    ),
            decreases faces_indices.len() - j,
        {
            let face_index = faces_indices[j];
            let inside = overlaps(&child_bounds, &faces[face_index as usize]);
            proof {
                lemma_filter_by_step(faces_indices@, keep, j as int, inside);
                keep = keep.push(inside);
            }
            if inside {
                overlapping_faces.push(face_index);
            }
            j += 1;
        }
        proof {
            assert(faces_indices@.take(faces_indices.len() as int) == faces_indices@);
            assert(keep == overlap_flags(*overlaps, child_bounds, faces_indices@, faces@));
            assert(child_bounds == answered_box(*child_box, bounds, spec_octant_signs(children_index)));
            lemma_filter_by_members(faces_indices@, keep);
        }
        let ghost inside_faces = overlapping_faces@;
        let slot: Option<Box<OctreeNode<u32, B>>> = if overlapping_faces.len() == 0 {
            None
        } else if overlapping_faces.len() <= MIN_OBJECTS as usize || depth == MAX_DEPTH {
            Some(Box::new(OctreeNode::new_leaf_node(child_bounds, overlapping_faces)))
        } else {
            proof {
                assert forall|i: int| 0 <= i < inside_faces.len() implies inside_faces[i] < faces.len() by {
                    let j = filter_source(faces_indices@, keep, i);
                }
            }
            let child = generate_octree_children(
                child_bounds,
                &overlapping_faces,
                faces,
                child_box,
                overlaps,
                depth + 1,
            );
            Some(Box::new(child))
        };
        children.push(slot);
        children_index += 1;
    }
    OctreeNode { axis_aligned_bounding_box: bounds, octree_node_type: OctreeNodeType::OctreeBranch { children } }
}

/// Builds the octree over the triangles `faces` of a mesh whose bounds are
/// `mesh_aabb`. With at most `MIN_OBJECTS` triangles the root is a leaf that
/// lists them all; otherwise the root is a branch subdivided from depth 0.
/// `child_box` places the box of a child from its parent's box and the
/// octant's signs; `overlaps` tells whether a triangle overlaps a box.
pub fn construct_octree<B, C, O>(
    faces: &Vec<Face>,
    mesh_aabb: B,
    child_box: &C,
    overlaps: &O,
) -> (tree: Octree<u32, B>) where C: Fn(&B, (i32, i32, i32)) -> B, O: Fn(&B, &Face) -> bool
    requires
        faces.len() <= u32::MAX,
        forall|b: &B, s: (i32, i32, i32)| #[trigger] call_requires(*child_box, (b, s)),
        forall|b: &B, f: &Face| #[trigger] call_requires(*overlaps, (b, f)),
        places_deterministically(*child_box),
        tests_deterministically(*overlaps),
    ensures
        tree.spec_minimum_leaves() == MIN_OBJECTS,
        tree.spec_maximum_depth() == MAX_DEPTH,
        tree.spec_root().axis_aligned_bounding_box == mesh_aabb,
        faces.len() <= MIN_OBJECTS ==> {
            &&& tree.spec_root().octree_node_type is OctreeLeaf
            &&& tree.spec_root().octree_node_type->contents@ == all_faces(faces.len() as nat)
        },
        faces.len() > MIN_OBJECTS ==> subdivided(
            tree.spec_root(),
            all_faces(faces.len() as nat),
            faces@,
            0,
            *child_box,
            *overlaps,
        ),
{
    let face_count = faces.len() as u32;
    let mut all_face_indices: Vec<u32> = Vec::new();
    let mut face_index: u32 = 0;
    while face_index < face_count
        invariant
            face_index <= face_count,
            face_count == faces.len(),
            all_face_indices@ == all_faces(face_index as nat),
        decreases face_count - face_index,
    {
        all_face_indices.push(face_index);
        face_index += 1;
        proof {
            assert(all_face_indices@ == all_faces(face_index as nat));
        }
    }
    let root_node = if face_count <= MIN_OBJECTS {
        OctreeNode::new_leaf_node(mesh_aabb, all_face_indices)
    } else {
        generate_octree_children(mesh_aabb, &all_face_indices, faces, child_box, overlaps, 0)
    };
    Octree::new(MIN_OBJECTS, MAX_DEPTH, root_node)
}


/// Whether `items` is strictly increasing (so holds no item twice).
pub open spec fn strictly_increasing(items: Seq<u32>) -> bool {
    forall|i: int, j: int| 0 <= i < j < items.len() ==> items[i] < items[j]
}

/// Whether every node below `node` lies at most `levels` levels below it.
pub open spec fn height_within<T, B>(node: OctreeNode<T, B>, levels: int) -> bool
    decreases node,
{
    match node.octree_node_type {
        OctreeNodeType::OctreeLeaf { .. } => levels >= 0,
        OctreeNodeType::OctreeBranch { children } => {
            &&& levels >= 1
            &&& forall|k: int|
                0 <= k < children@.len() && (#[trigger] children@[k]) is Some ==> height_within(
                    *children@[k]->Some_0,
                    levels - 1,
                )
        },
    }
}

/// Whether every leaf strictly below `node` (which lies at subdivision depth
/// `depth`) lists at least one face, lists faces numbered below `face_count`
/// in increasing order, lists only faces that `overlaps` reports inside the
/// leaf's box, and lists more than `MIN_OBJECTS` faces only when its parent
/// lies at `MAX_DEPTH`.
pub open spec fn leaves_below_sound<B, O>(
    node: OctreeNode<u32, B>,
    depth: int,
    face_count: nat,
    faces: Seq<Face>,
    overlaps: O,
) -> bool where O: Fn(&B, &Face) -> bool
    decreases node,
{
    match node.octree_node_type {
        OctreeNodeType::OctreeLeaf { .. } => true,
        OctreeNodeType::OctreeBranch { children } => forall|k: int|
            0 <= k < children@.len() && (#[trigger] children@[k]) is Some ==> {
                let child = *children@[k]->Some_0;
                &&& match child.octree_node_type {
                    OctreeNodeType::OctreeLeaf { contents } => {
                        &&& contents@.len() > 0
                        &&& contents@.len() <= MIN_OBJECTS || depth == MAX_DEPTH
                        &&& strictly_increasing(contents@)
                        &&& forall|i: int|
                            0 <= i < contents@.len() ==> (#[trigger] contents@[i]) < face_count
                                && answered_overlap(
                                overlaps,
                                child.axis_aligned_bounding_box,
                                faces[contents@[i] as int],
                            )
                    },
                    OctreeNodeType::OctreeBranch { .. } => true,
                }
                &&& leaves_below_sound(child, depth + 1, face_count, faces, overlaps)
            },
    }
}

/// A filtered strictly increasing sequence is strictly increasing.
pub proof fn lemma_filter_by_increasing(items: Seq<u32>, keep: Seq<bool>)
    requires
        keep.len() == items.len(),
        strictly_increasing(items),
    ensures
        strictly_increasing(filter_by(items, keep)),
    decreases items.len(),
{
    if items.len() > 0 {
        let n = items.len() - 1;
        let rest_items = items.drop_last();
        let rest_keep = keep.take(n);
        lemma_filter_by_increasing(rest_items, rest_keep);
        lemma_filter_by_members(rest_items, rest_keep);
        let rest = filter_by(rest_items, rest_keep);
        assert(filter_by(items, keep) == if keep[n] { rest.push(items[n]) } else { rest });
        assert forall|i: int| 0 <= i < rest.len() implies #[trigger] rest[i] < items[n] by {
            let j = filter_source(rest_items, rest_keep, i);
            assert(rest_items[j] == items[j]);
        }
    }
}


/// A kept item shows up in the filtered sequence.
pub proof fn lemma_filter_by_keeps(items: Seq<u32>, keep: Seq<bool>, i: int)
    requires
        keep.len() == items.len(),
        0 <= i < items.len(),
        keep[i],
    ensures
        filter_by(items, keep).contains(items[i]),
    decreases items.len(),
{
    let n = items.len() - 1;
    let rest = filter_by(items.drop_last(), keep.take(n));
    if i < n {
        lemma_filter_by_keeps(items.drop_last(), keep.take(n), i);
        let p = choose|p: int| 0 <= p < rest.len() && rest[p] == items[i];
        assert(filter_by(items, keep)[p] == items[i]);
    } else {
        assert(filter_by(items, keep)[rest.len() as int] == items[i]);
    }
}

/// Subdivision loses no face: a face of a branch that `overlaps` reports
/// inside the box of one of its octants gets a child in that octant, and that
/// child, where it is a leaf, lists the face.
pub proof fn lemma_subdivided_keeps_overlapping_faces<B, C, O>(
    node: OctreeNode<u32, B>,
    node_faces: Seq<u32>,
    faces: Seq<Face>,
    depth: int,
    child_box: C,
    overlaps: O,
    k: int,
    i: int,
) where C: Fn(&B, (i32, i32, i32)) -> B, O: Fn(&B, &Face) -> bool
    requires
        subdivided(node, node_faces, faces, depth, child_box, overlaps),
        0 <= k < OCTANT_COUNT,
        0 <= i < node_faces.len(),
        answered_overlap(
            overlaps,
            answered_box(child_box, node.axis_aligned_bounding_box, spec_octant_signs(k as u32)),
            faces[node_faces[i] as int],
        ),
    ensures
        node.octree_node_type->children@[k] is Some,
        node.octree_node_type->children@[k]->Some_0.octree_node_type is OctreeLeaf
            ==> node.octree_node_type->children@[k]->Some_0.octree_node_type->contents@.contains(
            node_faces[i],
        ),
{
    let children = node.octree_node_type->children;
    let bounds = answered_box(child_box, node.axis_aligned_bounding_box, spec_octant_signs(k as u32));
    let flags = overlap_flags(overlaps, bounds, node_faces, faces);
    reveal_with_fuel(subdivided, 2);
    lemma_filter_by_keeps(node_faces, flags, i);
    assert(children@[k] is Some);
}

/// The leaf rule of subdivision, slot by slot: an octant that no face of a
/// branch overlaps stays empty; an octant holding between one and
/// `MIN_OBJECTS` of them gets a leaf listing exactly those faces, and so does
/// any non-empty octant at `MAX_DEPTH`; a child is a branch exactly when its
/// octant holds more than `MIN_OBJECTS` faces below `MAX_DEPTH`.
pub proof fn lemma_subdivided_leaf_rule<B, C, O>(
    node: OctreeNode<u32, B>,
    node_faces: Seq<u32>,
    faces: Seq<Face>,
    depth: int,
    child_box: C,
    overlaps: O,
    k: int,
) where C: Fn(&B, (i32, i32, i32)) -> B, O: Fn(&B, &Face) -> bool
    requires
        subdivided(node, node_faces, faces, depth, child_box, overlaps),
        0 <= k < OCTANT_COUNT,
    ensures
        ({
            let inside = faces_inside(
                overlaps,
                answered_box(child_box, node.axis_aligned_bounding_box, spec_octant_signs(k as u32)),
                node_faces,
                faces,
            );
            let slot = node.octree_node_type->children@[k];
            &&& inside.len() == 0 ==> slot is None
            &&& 0 < inside.len() <= MIN_OBJECTS ==> {
                &&& slot is Some
                &&& slot->Some_0.octree_node_type is OctreeLeaf
                &&& slot->Some_0.octree_node_type->contents@ == inside
            }
            &&& inside.len() > 0 && depth == MAX_DEPTH ==> {
                &&& slot is Some
                &&& slot->Some_0.octree_node_type is OctreeLeaf
                &&& slot->Some_0.octree_node_type->contents@ == inside
            }
            &&& slot is Some && slot->Some_0.octree_node_type is OctreeBranch ==> inside.len()
                > MIN_OBJECTS && depth != MAX_DEPTH
            &&& inside.len() > MIN_OBJECTS && depth != MAX_DEPTH ==> {
                &&& slot is Some
                &&& slot->Some_0.octree_node_type is OctreeBranch
            }
        }),
{
    reveal_with_fuel(subdivided, 2);
    let children = node.octree_node_type->children;
    assert(children@[k] == children@[k]);
}

/// The shape that subdivision gives a branch: no node lies more than
/// `MAX_DEPTH - depth + 1` levels below it, and its leaves are sound (see
/// `leaves_below_sound`).
pub proof fn lemma_subdivided_shape<B, C, O>(
    node: OctreeNode<u32, B>,
    node_faces: Seq<u32>,
    faces: Seq<Face>,
    depth: int,
    child_box: C,
    overlaps: O,
) where C: Fn(&B, (i32, i32, i32)) -> B, O: Fn(&B, &Face) -> bool
    requires
        0 <= depth <= MAX_DEPTH,
        subdivided(node, node_faces, faces, depth, child_box, overlaps),
        strictly_increasing(node_faces),
        forall|i: int| 0 <= i < node_faces.len() ==> node_faces[i] < faces.len(),
    ensures
        height_within(node, MAX_DEPTH - depth + 1),
        leaves_below_sound(node, depth, faces.len(), faces, overlaps),
    decreases node,
{
    let children = node.octree_node_type->children;
    assert forall|k: int| 0 <= k < children@.len() && (#[trigger] children@[k]) is Some implies {
        let child = *children@[k]->Some_0;
        &&& height_within(child, MAX_DEPTH - depth)
        &&& match child.octree_node_type {
            OctreeNodeType::OctreeLeaf { contents } => {
                &&& contents@.len() > 0
                &&& contents@.len() <= MIN_OBJECTS || depth == MAX_DEPTH
                &&& strictly_increasing(contents@)
                &&& forall|i: int|
                    0 <= i < contents@.len() ==> (#[trigger] contents@[i]) < faces.len()
                        && answered_overlap(
                        overlaps,
                        child.axis_aligned_bounding_box,
                        faces[contents@[i] as int],
                    )
            },
            OctreeNodeType::OctreeBranch { .. } => true,
        }
        &&& leaves_below_sound(child, depth + 1, faces.len(), faces, overlaps)
    } by {
        reveal_with_fuel(subdivided, 2);
        let bounds = answered_box(child_box, node.axis_aligned_bounding_box, spec_octant_signs(k as u32));
        let keep = overlap_flags(overlaps, bounds, node_faces, faces);
        let child = *children@[k]->Some_0;
        let inside = filter_by(node_faces, keep);
        lemma_filter_by_members(node_faces, keep);
        lemma_filter_by_increasing(node_faces, keep);
        assert forall|i: int| 0 <= i < inside.len() implies (#[trigger] inside[i]) < faces.len()
            && answered_overlap(overlaps, bounds, faces[inside[i] as int]) by {
            let j = filter_source(node_faces, keep, i);
            assert(keep[j]);
        }
        if inside.len() <= MIN_OBJECTS || depth == MAX_DEPTH {
        } else {
            lemma_subdivided_shape(child, inside, faces, depth + 1, child_box, overlaps);
        }
    }
}

/// The shape of a constructed octree: no node lies more than `MAX_DEPTH + 1`
/// levels below the root, the root lists every face when it is a leaf, and
/// every other leaf lists between one and `MIN_OBJECTS` distinct, valid faces
/// (more only at the maximum depth), each of which `overlaps` reports inside
/// the leaf's box.
pub proof fn lemma_octree_shape<B, C, O>(
    tree: Octree<u32, B>,
    faces: Seq<Face>,
    child_box: C,
    overlaps: O,
) where C: Fn(&B, (i32, i32, i32)) -> B, O: Fn(&B, &Face) -> bool
    requires
        faces.len() <= u32::MAX,
        faces.len() <= MIN_OBJECTS ==> {
            &&& tree.spec_root().octree_node_type is OctreeLeaf
            &&& tree.spec_root().octree_node_type->contents@ == all_faces(faces.len())
        },
        faces.len() > MIN_OBJECTS ==> subdivided(
            tree.spec_root(),
            all_faces(faces.len()),
            faces,
            0,
            child_box,
            overlaps,
        ),
    ensures
        height_within(tree.spec_root(), MAX_DEPTH + 1),
        leaves_below_sound(tree.spec_root(), 0, faces.len(), faces, overlaps),
{
    if faces.len() > MIN_OBJECTS {
        assert forall|i: int, j: int| 0 <= i < j < faces.len() implies all_faces(faces.len())[i]
            < all_faces(faces.len())[j] by {
            assert(all_faces(faces.len())[i] == i && all_faces(faces.len())[j] == j);
        }
        lemma_subdivided_shape(tree.spec_root(), all_faces(faces.len()), faces, 0, child_box, overlaps);
    }
}


/// The children of a branch are the eight octants of its box: every sign is
/// 1 or -1, and distinct children get distinct sign triples.
pub proof fn lemma_octant_signs_distinct(first: u32, second: u32)
    requires
        first < 8,
        second < 8,
        first != second,
    ensures
        spec_octant_signs(first) != spec_octant_signs(second),
        spec_octant_signs(first).0 == 1 || spec_octant_signs(first).0 == -1,
        spec_octant_signs(first).1 == 1 || spec_octant_signs(first).1 == -1,
        spec_octant_signs(first).2 == 1 || spec_octant_signs(first).2 == -1,
{
    assert(((first & 1u32 != 0u32) == (second & 1u32 != 0u32) && (first & 2u32 != 0u32) == (second
        & 2u32 != 0u32) && (first & 4u32 != 0u32) == (second & 4u32 != 0u32)) ==> first == second)
        by (bit_vector)
        requires
            first < 8,
            second < 8,
    ;
}

/// Index `position` of an index stream, or 0 past its end.
pub open spec fn index_or_zero(indices: Seq<u32>, position: int) -> u32 {
    if 0 <= position < indices.len() {
        indices[position]
    } else {
        0
    }
}

/// The number of triangles an index stream of `count` indices makes: one per
/// started group of three.
pub open spec fn face_count_of(count: nat) -> nat {
    (count + 2) / 3
}

/// Appends to `faces` the triangles of the index stream `indices`: triangle
/// `k` takes indices `3k`, `3k + 1` and `3k + 2`, where a missing index (in
/// the last, incomplete group) is 0. Returns how many indices were missing.
pub fn push_faces_from_indices(faces: &mut Vec<Face>, indices: &Vec<u32>) -> (missing: usize)
    ensures
        final(faces).len() == old(faces).len() + face_count_of(indices.len() as nat),
        forall|k: int| 0 <= k < old(faces).len() ==> #[trigger] final(faces)@[k] == old(faces)@[k],
        forall|p: int, j: int|
            old(faces).len() <= p < final(faces).len() && 0 <= j < 3
                ==> #[trigger] final(faces)@[p].indices@[j]
                == index_or_zero(indices@, 3 * (p - old(faces).len()) + j),
        missing == 3 * face_count_of(indices.len() as nat) - indices.len(),
{
    let count = indices.len();
    let ghost start = faces.len();
    let mut next: usize = 0;
    let mut missing: usize = 0;
    while next < count
        invariant
            count == indices.len(),
            next <= count,
            next % 3 == 0,
            faces.len() == start + next / 3,
            start == old(faces).len(),
            forall|k: int| 0 <= k < old(faces).len() ==> #[trigger] faces@[k] == old(faces)@[k],
            forall|p: int, j: int|
                start <= p < faces.len() && 0 <= j < 3 ==> #[trigger] faces@[p].indices@[j]
                    == index_or_zero(indices@, 3 * (p - start) + j),
            missing == 0,
        decreases count - next,
    {
        let first_index = indices[next];
        let second_index = if count - next > 1 {
            indices[next + 1]
        } else {
            missing += 1;
            0
        };
        let third_index = if count - next > 2 {
            indices[next + 2]
        } else {
            missing += 1;
            0
        };
        faces.push(Face { indices: [first_index, second_index, third_index] });
        if count - next >= 3 {
            next += 3;
        } else {
            proof {
                assert(faces@[start + next / 3].indices@ == seq![first_index, second_index, third_index]);
            }
            assert(faces.len() == start + face_count_of(count as nat));
            return missing;
        }
    }
    missing
}

} // verus!
