use nitroray::mesh::{construct_octree, octant_signs, push_faces_from_indices, Face, MAX_DEPTH, MIN_OBJECTS};
use nitroray::octree::{OctreeNode, OctreeNodeType};

#[derive(Debug, Clone, Copy, PartialEq)]
struct CubeBox {
    center: [i64; 3],
    half: i64,
}

fn child_cube(parent: &CubeBox, signs: (i32, i32, i32)) -> CubeBox {
    let step = parent.half / 2;
    CubeBox {
        center: [
            parent.center[0] + step * signs.0 as i64,
            parent.center[1] + step * signs.1 as i64,
            parent.center[2] + step * signs.2 as i64,
        ],
        half: step,
    }
}

fn point_in_cube(cube: &CubeBox, point: [i64; 3]) -> bool {
    (0..3).all(|axis| (point[axis] - cube.center[axis]).abs() <= cube.half)
}

fn branch_children<B>(node: &OctreeNode<u32, B>) -> &Vec<Option<Box<OctreeNode<u32, B>>>> {
    match &node.octree_node_type {
        OctreeNodeType::OctreeBranch { children } => children,
        OctreeNodeType::OctreeLeaf { .. } => panic!("expected a branch"),
    }
}

fn leaf_contents<B>(node: &OctreeNode<u32, B>) -> &Vec<u32> {
    match &node.octree_node_type {
        OctreeNodeType::OctreeLeaf { contents } => contents,
        OctreeNodeType::OctreeBranch { .. } => panic!("expected a leaf"),
    }
}

fn faces_at(count: usize) -> Vec<Face> {
    (0..count).map(|_| Face { indices: [0, 0, 0] }).collect()
}

#[test]
fn octant_signs_follow_index_bits() {
    assert_eq!(octant_signs(0), (-1, -1, -1));
    assert_eq!(octant_signs(1), (1, -1, -1));
    assert_eq!(octant_signs(2), (-1, 1, -1));
    assert_eq!(octant_signs(3), (1, 1, -1));
    assert_eq!(octant_signs(4), (-1, -1, 1));
    assert_eq!(octant_signs(5), (1, -1, 1));
    assert_eq!(octant_signs(6), (-1, 1, 1));
    assert_eq!(octant_signs(7), (1, 1, 1));
}

#[test]
fn octant_signs_are_distinct() {
    for first in 0..8u32 {
        for second in 0..8u32 {
            if first != second {
                assert_ne!(octant_signs(first), octant_signs(second));
            }
        }
    }
}

#[test]
fn complete_index_stream_makes_triangles() {
    let mut faces = Vec::new();
    let missing = push_faces_from_indices(&mut faces, &vec![0, 1, 2, 2, 3, 0]);
    assert_eq!(missing, 0);
    assert_eq!(faces.len(), 2);
    assert_eq!(faces[0].indices, [0, 1, 2]);
    assert_eq!(faces[1].indices, [2, 3, 0]);
}

#[test]
fn incomplete_index_stream_pads_with_zero() {
    let mut faces = vec![Face { indices: [9, 9, 9] }];
    let missing = push_faces_from_indices(&mut faces, &vec![4, 5, 6, 7]);
    assert_eq!(missing, 2);
    assert_eq!(faces.len(), 3);
    assert_eq!(faces[0].indices, [9, 9, 9]);
    assert_eq!(faces[1].indices, [4, 5, 6]);
    assert_eq!(faces[2].indices, [7, 0, 0]);

    let missing = push_faces_from_indices(&mut faces, &vec![1, 2]);
    assert_eq!(missing, 1);
    assert_eq!(faces.len(), 4);
    assert_eq!(faces[3].indices, [1, 2, 0]);
}

#[test]
fn empty_index_stream_adds_nothing() {
    let mut faces = Vec::new();
    assert_eq!(push_faces_from_indices(&mut faces, &Vec::new()), 0);
    assert!(faces.is_empty());
}

#[test]
fn few_faces_make_a_root_leaf() {
    let faces = faces_at(3);
    let root = CubeBox { center: [0, 0, 0], half: 8 };
    let tree = construct_octree(&faces, root, &child_cube, &|_: &CubeBox, _: &Face| true);
    assert_eq!(*tree.get_root_axis_aligned_bounding_box(), root);
    assert_eq!(leaf_contents(tree.get_root()), &vec![0, 1, 2]);
}

#[test]
fn no_faces_make_an_empty_root_leaf() {
    let faces = faces_at(0);
    let root = CubeBox { center: [0, 0, 0], half: 8 };
    let tree = construct_octree(&faces, root, &child_cube, &|_: &CubeBox, _: &Face| true);
    assert!(leaf_contents(tree.get_root()).is_empty());
}

#[test]
fn faces_split_into_leaves_by_octant() {
    // Faces 0..3 sit at (-5, -5, -5), faces 3..6 at (5, -5, -5).
    let points: Vec<[i64; 3]> = vec![[-5, -5, -5], [5, -5, -5]];
    let faces: Vec<Face> = (0..6).map(|i| Face { indices: [i / 3; 3] }).collect();
    let overlaps = |cube: &CubeBox, face: &Face| point_in_cube(cube, points[face.indices[0] as usize]);
    let root = CubeBox { center: [0, 0, 0], half: 8 };
    let tree = construct_octree(&faces, root, &child_cube, &overlaps);
    let children = branch_children(tree.get_root());
    assert_eq!(children.len(), 8);
    let first = children[0].as_deref().unwrap();
    assert_eq!(first.axis_aligned_bounding_box, CubeBox { center: [-4, -4, -4], half: 4 });
    assert_eq!(leaf_contents(first), &vec![0, 1, 2]);
    let second = children[1].as_deref().unwrap();
    assert_eq!(second.axis_aligned_bounding_box, CubeBox { center: [4, -4, -4], half: 4 });
    assert_eq!(leaf_contents(second), &vec![3, 4, 5]);
    for k in 2..8 {
        assert!(children[k].is_none());
    }
}

#[test]
fn crowded_octant_is_subdivided_again() {
    // Five faces at (-5, -5, -5): more than MIN_OBJECTS, so each octant that
    // holds them becomes a branch and is split again; at every level exactly
    // one octant holds them, and none of them is lost.
    assert!(5 > MIN_OBJECTS);
    let faces = faces_at(5);
    let overlaps = |cube: &CubeBox, _: &Face| point_in_cube(cube, [-5, -5, -5]);
    let root = CubeBox { center: [0, 0, 0], half: 8 };
    let tree = construct_octree(&faces, root, &child_cube, &overlaps);
    let level0 = branch_children(tree.get_root());
    assert!(level0[1..].iter().all(|child| child.is_none()));
    let level1_node = level0[0].as_deref().unwrap();
    assert_eq!(level1_node.axis_aligned_bounding_box, CubeBox { center: [-4, -4, -4], half: 4 });
    let level1 = branch_children(level1_node);
    assert!(level1[1..].iter().all(|child| child.is_none()));
    let level2_node = level1[0].as_deref().unwrap();
    assert_eq!(level2_node.axis_aligned_bounding_box, CubeBox { center: [-6, -6, -6], half: 2 });
    let level2 = branch_children(level2_node);
    assert!(level2[..7].iter().all(|child| child.is_none()));
    let level3_node = level2[7].as_deref().unwrap();
    assert_eq!(level3_node.axis_aligned_bounding_box, CubeBox { center: [-5, -5, -5], half: 1 });
    assert!(matches!(level3_node.octree_node_type, OctreeNodeType::OctreeBranch { .. }));
}

fn depth_of_deepest_leaf<B>(node: &OctreeNode<u32, B>) -> u32 {
    match &node.octree_node_type {
        OctreeNodeType::OctreeLeaf { .. } => 0,
        OctreeNodeType::OctreeBranch { children } => {
            1 + children.iter().flatten().map(|child| depth_of_deepest_leaf(&**child)).max().unwrap_or(0)
        }
    }
}

#[test]
fn subdivision_stops_at_maximum_depth() {
    // Every box overlaps every face, so subdivision only stops at MAX_DEPTH,
    // where the leaves keep all six faces.
    let faces = faces_at(6);
    let root = CubeBox { center: [0, 0, 0], half: 1 << 12 };
    let tree = construct_octree(&faces, root, &child_cube, &|_: &CubeBox, _: &Face| true);
    assert_eq!(depth_of_deepest_leaf(tree.get_root()), MAX_DEPTH + 1);
    let mut node = tree.get_root();
    for _ in 0..=MAX_DEPTH {
        node = branch_children(node)[7].as_deref().unwrap();
    }
    assert_eq!(leaf_contents(node), &vec![0, 1, 2, 3, 4, 5]);
}

fn check_leaves_below(node: &OctreeNode<u32, CubeBox>, overlaps: &dyn Fn(&CubeBox, &Face) -> bool, faces: &Vec<Face>, depth: u32, leaves: &mut usize) {
    if let OctreeNodeType::OctreeBranch { children } = &node.octree_node_type {
        assert_eq!(children.len(), 8);
        for child in children.iter().flatten() {
            if let OctreeNodeType::OctreeLeaf { contents } = &child.octree_node_type {
                *leaves += 1;
                assert!(!contents.is_empty());
                assert!(contents.len() <= MIN_OBJECTS as usize || depth == MAX_DEPTH);
                assert!(contents.windows(2).all(|pair| pair[0] < pair[1]));
                for face in contents {
                    assert!((*face as usize) < faces.len());
                    assert!(overlaps(&child.axis_aligned_bounding_box, &faces[*face as usize]));
                }
            }
            check_leaves_below(child, overlaps, faces, depth + 1, leaves);
        }
    }
}

#[test]
fn every_leaf_face_overlaps_its_leaf() {
    // Nine faces spread over the lower octants of a cube of half size 64.
    let points: Vec<[i64; 3]> = (0..9).map(|i| [-60 + 13 * i, -50 + 5 * i, -40 + 3 * i]).collect();
    let faces: Vec<Face> = (0..9u32).map(|i| Face { indices: [i, i, i] }).collect();
    let overlaps = |cube: &CubeBox, face: &Face| point_in_cube(cube, points[face.indices[0] as usize]);
    let root = CubeBox { center: [0, 0, 0], half: 64 };
    let tree = construct_octree(&faces, root, &child_cube, &overlaps);
    let mut leaves = 0;
    check_leaves_below(tree.get_root(), &overlaps, &faces, 0, &mut leaves);
    assert!(leaves > 0);
}

#[test]
fn node_constructors_keep_their_arguments() {
    let bounds = CubeBox { center: [1, 2, 3], half: 4 };
    let leaf: OctreeNode<u32, CubeBox> = OctreeNode::new_leaf_node(bounds, vec![7, 8]);
    assert_eq!(leaf.axis_aligned_bounding_box, bounds);
    assert_eq!(leaf_contents(&leaf), &vec![7, 8]);
    let branch: OctreeNode<u32, CubeBox> = OctreeNode::new_branch_node(bounds);
    assert_eq!(branch.axis_aligned_bounding_box, bounds);
    let children = branch_children(&branch);
    assert_eq!(children.len(), 8);
    assert!(children.iter().all(|child| child.is_none()));
}

#[test]
fn octree_keeps_its_root() {
    let bounds = CubeBox { center: [0, 0, 0], half: 2 };
    let tree = nitroray::octree::Octree::new(4, 5, OctreeNode::<u32, CubeBox>::new_leaf_node(bounds, vec![1]));
    assert_eq!(*tree.get_root_axis_aligned_bounding_box(), bounds);
    assert_eq!(leaf_contents(tree.get_root()), &vec![1]);
}
