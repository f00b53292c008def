use octree_isosurface::octree::{Octree, OctreeInfo, OctreeNode};
use octree_isosurface::space::{Origin, MAX_LEVEL};
use octree_isosurface::worker::{Result, TaskAction};
use std::cell::Cell;

const Q: i64 = 1 << 29;

fn root_children() -> (OctreeNode<u32>, OctreeInfo) {
    let mut info = OctreeInfo::new();
    let mut node: OctreeNode<u32> = OctreeNode::new(&mut info, &Vec::new(), 0, Origin::zero());
    info.take_tasks();
    node.create_children(&mut info, &Vec::new(), 0, Origin::zero());
    (node, info)
}

/// Centre of the node at depth `MAX_LEVEL` reached by always taking child 1.
fn deepest_origin() -> Origin {
    let mut o = Origin::zero();
    for level in 0..MAX_LEVEL {
        o = octree_isosurface::space::child_origin(o, level, 1);
    }
    o
}

#[test]
fn new_node_issues_its_own_generation() {
    let mut info = OctreeInfo::new();
    let node: OctreeNode<u32> = OctreeNode::new(&mut info, &vec![2, 5], 2, Origin { x: Q - Q / 2, y: -Q + Q / 2, z: Q - Q / 2 });
    assert!(node.geometry.is_none() && node.children.is_none());
    assert_eq!(info.tasks.len(), 1);
    let t = &info.tasks[0];
    assert!(t.action == TaskAction::Generate);
    assert_eq!(t.path, vec![2, 5]);
    assert_eq!(t.level, 2);
    assert_eq!((t.x, t.y, t.z), (Q - Q / 2, -Q + Q / 2, Q - Q / 2));
}

#[test]
fn new_tree_requests_the_root() {
    let tree: Octree<u32> = Octree::new();
    assert!(tree.root.geometry.is_none());
    assert!(tree.root.children.is_none());
    assert_eq!(tree.info.tasks.len(), 1);
    let t = &tree.info.tasks[0];
    assert!(t.action == TaskAction::Generate);
    assert_eq!(t.level, 0);
    assert!(t.path.is_empty());
    assert_eq!((t.x, t.y, t.z), (0, 0, 0));
}

#[test]
fn create_children_issues_one_generate_per_octant() {
    let (node, info) = root_children();
    let children = node.children.as_ref().unwrap();
    assert_eq!(children.len(), 8);
    assert!(children.iter().all(|c| c.geometry.is_none() && c.children.is_none()));
    assert_eq!(info.tasks.len(), 8);
    let expected = [
        (Q, Q, Q),
        (Q, Q, -Q),
        (Q, -Q, Q),
        (Q, -Q, -Q),
        (-Q, Q, Q),
        (-Q, Q, -Q),
        (-Q, -Q, Q),
        (-Q, -Q, -Q),
    ];
    for (i, t) in info.tasks.iter().enumerate() {
        assert!(t.action == TaskAction::Generate);
        assert_eq!(t.level, 1);
        assert_eq!(t.path, vec![i as u8]);
        assert_eq!((t.x, t.y, t.z), expected[i]);
    }
}

#[test]
fn grandchild_origin_is_offset_by_a_quarter_of_the_parent() {
    let mut info = OctreeInfo::new();
    let mut node: OctreeNode<u32> =
        OctreeNode::new(&mut info, &vec![7], 1, Origin { x: -Q, y: -Q, z: -Q });
    info.take_tasks();
    node.create_children(&mut info, &vec![7], 1, Origin { x: -Q, y: -Q, z: -Q });
    let t = &info.tasks[0];
    assert_eq!(t.level, 2);
    assert_eq!(t.path, vec![7, 0]);
    assert_eq!((t.x, t.y, t.z), (-Q + Q / 2, -Q + Q / 2, -Q + Q / 2));
}

#[test]
fn create_children_twice_is_create_children_once() {
    let (mut node, mut info) = root_children();
    node.children.as_mut().unwrap()[3].geometry = Some(5);
    node.create_children(&mut info, &Vec::new(), 0, Origin::zero());
    assert_eq!(info.tasks.len(), 8);
    assert_eq!(node.children.as_ref().unwrap()[3].geometry, Some(5));
}

#[test]
fn create_then_destroy_cancels_all_eight() {
    let (mut node, mut info) = root_children();
    node.destroy_children(&mut info, &Vec::new(), 0, Origin::zero());
    assert!(node.children.is_none());
    assert_eq!(info.tasks.len(), 16);
    for i in 0..8 {
        let g = &info.tasks[i];
        let c = &info.tasks[8 + i];
        assert!(c.action == TaskAction::Cancel);
        assert_eq!(c.path, vec![i as u8]);
        assert_eq!(c.level, 1);
        assert_eq!((c.x, c.y, c.z), (g.x, g.y, g.z));
    }
}

#[test]
fn destroy_cancels_only_children_without_mesh() {
    let (mut node, mut info) = root_children();
    node.geometry = Some(1);
    {
        let children = node.children.as_mut().unwrap();
        children[0].geometry = Some(10);
        children[5].geometry = Some(15);
    }
    info.take_tasks();
    node.destroy_children(&mut info, &Vec::new(), 0, Origin::zero());
    assert!(node.children.is_none());
    assert_eq!(node.geometry, Some(1));
    let paths: Vec<Vec<u8>> = info.tasks.iter().map(|t| t.path.clone()).collect();
    assert_eq!(paths, vec![vec![1], vec![2], vec![3], vec![4], vec![6], vec![7]]);
    assert!(info.tasks.iter().all(|t| t.action == TaskAction::Cancel));
}

#[test]
fn destroy_on_a_leaf_issues_nothing() {
    let mut info = OctreeInfo::new();
    let mut node: OctreeNode<u32> =
        OctreeNode::new(&mut info, &vec![1; MAX_LEVEL as usize], MAX_LEVEL, deepest_origin());
    info.take_tasks();
    node.destroy_children(&mut info, &vec![1; MAX_LEVEL as usize], MAX_LEVEL, deepest_origin());
    assert!(node.children.is_none());
    assert!(info.tasks.is_empty());
}

#[test]
fn update_installs_by_path() {
    let mut tree: Octree<u32> = Octree::new();
    tree.root.create_children(&mut tree.info, &Vec::new(), 0, Origin::zero());
    tree.update(vec![
        Result { path: vec![], data: 1 },
        Result { path: vec![6], data: 7 },
    ]);
    assert_eq!(tree.root.geometry, Some(1));
    assert_eq!(tree.root.children.as_ref().unwrap()[6].geometry, Some(7));
    assert_eq!(tree.find(&vec![6]).unwrap().geometry, Some(7));
    assert!(tree.find(&vec![6, 1]).is_none());
}

#[test]
fn later_result_for_the_same_path_wins() {
    let mut tree: Octree<u32> = Octree::new();
    tree.update(vec![Result { path: vec![], data: 1 }, Result { path: vec![], data: 2 }]);
    assert_eq!(tree.root.geometry, Some(2));
}

#[test]
fn result_under_destroyed_subtree_is_dropped() {
    let mut tree: Octree<u32> = Octree::new();
    tree.root.create_children(&mut tree.info, &Vec::new(), 0, Origin::zero());
    {
        let child = &mut tree.root.children.as_mut().unwrap()[2];
        child.create_children(&mut tree.info, &vec![2], 1, Origin { x: Q, y: -Q, z: Q });
    }
    tree.root.children.as_mut().unwrap()[2].destroy_children(
        &mut tree.info,
        &vec![2],
        1,
        Origin { x: Q, y: -Q, z: Q },
    );
    tree.update(vec![Result { path: vec![2, 4], data: 9 }, Result { path: vec![9], data: 9 }]);
    let child = &tree.root.children.as_ref().unwrap()[2];
    assert!(child.children.is_none());
    assert!(child.geometry.is_none());
    assert!(tree.root.geometry.is_none());
}

#[test]
fn walk_hands_out_consistent_levels_children_first() {
    let mut tree: Octree<u32> = Octree::new();
    tree.root.create_children(&mut tree.info, &Vec::new(), 0, Origin::zero());
    let visits = Cell::new(0u32);
    let last_level = Cell::new(99u32);
    tree.walk(&|_node: &mut OctreeNode<u32>, _info: &mut OctreeInfo, path: &Vec<u8>, level: u32, _o: Origin| {
        assert_eq!(path.len() as u32, level);
        visits.set(visits.get() + 1);
        last_level.set(level);
    });
    assert_eq!(visits.get(), 9);
    assert_eq!(last_level.get(), 0);
}

#[test]
fn walk_visitor_subdivides_one_level_per_pass() {
    let mut tree: Octree<u32> = Octree::new();
    let visitor = |node: &mut OctreeNode<u32>, info: &mut OctreeInfo, path: &Vec<u8>, level: u32, o: Origin| {
        if level < 2 && level < MAX_LEVEL {
            node.create_children(info, path, level, o);
        }
    };
    tree.walk(&visitor);
    assert_eq!(tree.info.tasks.len(), 9);
    tree.walk(&visitor);
    assert_eq!(tree.info.tasks.len(), 9 + 64);
    let t = tree.info.tasks.last().unwrap();
    assert_eq!(t.path, vec![7, 7]);
    assert_eq!(t.level, 2);
}

#[test]
fn draw_lists_leaves_and_stand_ins() {
    let mut tree: Octree<u32> = Octree::new();
    let placements = tree.draw();
    assert_eq!(placements.len(), 1);
    assert!(placements[0].path.is_empty());

    tree.root.create_children(&mut tree.info, &Vec::new(), 0, Origin::zero());
    let placements = tree.draw();
    let paths: Vec<Vec<u8>> = placements.iter().map(|p| p.path.clone()).collect();
    let mut expected: Vec<Vec<u8>> = (0..8u8).map(|i| vec![i]).collect();
    expected.push(vec![]);
    assert_eq!(paths, expected);
    assert_eq!(placements[0].level, 1);
    assert_eq!((placements[0].origin.x, placements[0].origin.y), (Q, Q));

    let all: Vec<Result<u32>> = (0..8u8).map(|i| Result { path: vec![i], data: 1 }).collect();
    tree.update(all);
    let paths: Vec<Vec<u8>> = tree.draw().iter().map(|p| p.path.clone()).collect();
    assert_eq!(paths.len(), 8);
    assert!(!paths.contains(&vec![]));
}

#[test]
fn take_tasks_empties_the_queue() {
    let mut tree: Octree<u32> = Octree::new();
    let tasks = tree.info.take_tasks();
    assert_eq!(tasks.len(), 1);
    assert!(tree.info.tasks.is_empty());
}

#[test]
fn walk_visits_children_in_order_then_parent() {
    let mut tree: Octree<u32> = Octree::new();
    tree.root.create_children(&mut tree.info, &Vec::new(), 0, Origin::zero());
    tree.root.children.as_mut().unwrap()[3].create_children(
        &mut tree.info,
        &vec![3],
        1,
        Origin { x: Q, y: -Q, z: -Q },
    );
    let seen = std::cell::RefCell::new(Vec::new());
    tree.walk(&|_n: &mut OctreeNode<u32>, _i: &mut OctreeInfo, path: &Vec<u8>, level: u32, o: Origin| {
        seen.borrow_mut().push((path.clone(), level, o));
    });
    let seen = seen.into_inner();
    let paths: Vec<Vec<u8>> = seen.iter().map(|v| v.0.clone()).collect();
    let mut expected: Vec<Vec<u8>> = vec![vec![0], vec![1], vec![2]];
    expected.extend((0..8u8).map(|i| vec![3, i]));
    expected.extend(vec![vec![3], vec![4], vec![5], vec![6], vec![7], vec![]]);
    assert_eq!(paths, expected);
    let (_, level, o) = &seen[3];
    assert_eq!(*level, 2);
    assert_eq!(*o, Origin { x: Q + Q / 2, y: -Q + Q / 2, z: -Q + Q / 2 });
}

#[test]
fn several_stale_results_in_one_update_are_dropped() {
    let mut tree: Octree<u32> = Octree::new();
    tree.root.create_children(&mut tree.info, &Vec::new(), 0, Origin::zero());
    tree.root.destroy_children(&mut tree.info, &Vec::new(), 0, Origin::zero());
    tree.update(vec![
        Result { path: vec![0], data: 1 },
        Result { path: vec![5, 2], data: 2 },
        Result { path: vec![7], data: 3 },
    ]);
    assert!(tree.root.children.is_none());
    assert!(tree.root.geometry.is_none());
}
