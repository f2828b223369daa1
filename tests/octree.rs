use voxel_map::octree::{BlockInfo, BlockOctree, LocationCode, OctreeNode, SubCube};

#[derive(Clone, Copy, Debug, Default, Eq, PartialEq)]
struct TestBlock(u16);

#[derive(Debug)]
struct BlockDefs;

impl BlockInfo<TestBlock> for BlockDefs {
    fn homogeneous(&self, _block: TestBlock) -> bool {
        true
    }

    fn is_homogeneous(&self, _block: &TestBlock) -> bool {
        true
    }
}

/// Blocks at or above 100 are machines: they may not be merged or split.
#[derive(Debug)]
struct MachineDefs;

impl BlockInfo<TestBlock> for MachineDefs {
    fn homogeneous(&self, block: TestBlock) -> bool {
        block.0 < 100
    }

    fn is_homogeneous(&self, block: &TestBlock) -> bool {
        block.0 < 100
    }
}

fn root() -> LocationCode {
    LocationCode::root()
}

fn sorted_present<BI: BlockInfo<TestBlock>>(tree: &BlockOctree<TestBlock, BI>) -> Vec<(u32, u16)> {
    let mut v: Vec<(u32, u16)> = tree
        .depth_first_blocks()
        .iter()
        .map(|(l, b)| (code_number(*l), b.0))
        .collect();
    v.sort();
    v
}

/// The path of a code as corner indexes, from the root: distinct codes have distinct paths.
fn code_number(l: LocationCode) -> u32 {
    let mut n: u32 = 1;
    let path = l.from_root_to_here();
    for w in path.windows(2) {
        let (parent, sub) = w[1].sub_cube().unwrap();
        assert_eq!(parent, w[0]);
        let bits = SubCube::all_sub_cubes().iter().position(|s| *s == sub).unwrap() as u32;
        n = n * 8 + bits;
    }
    n
}

/// Checks the coverage invariant on every address reachable from the root.
fn check_coverage<BI: BlockInfo<TestBlock>>(tree: &BlockOctree<TestBlock, BI>, code: LocationCode) -> usize {
    match tree.get_volume(code) {
        Some(OctreeNode::Present(_)) => {
            for s in SubCube::all_sub_cubes() {
                assert!(tree.get_volume(code.push_sub_cube(s)).is_none());
            }
            1
        }
        Some(OctreeNode::Subdivided) => SubCube::all_sub_cubes()
            .into_iter()
            .map(|s| check_coverage(tree, code.push_sub_cube(s)))
            .sum(),
        None => panic!("a void in the octree"),
    }
}

#[test]
fn test_octree() {
    let mut tree: BlockOctree<TestBlock, BlockDefs> = BlockOctree::new(BlockDefs);

    println!("Tree before insert: {:#?}", tree);
    let sub_area = LocationCode::root().push_sub_cube(SubCube::LowerNe);
    tree.set_volume(sub_area, TestBlock(2));
    println!("Tree after insert: {:#?}", tree);

    let items = tree.depth_first_blocks();
    assert!(
        items
            == &[
                (LocationCode::root().push_sub_cube(SubCube::LowerSw), TestBlock(0)),
                (LocationCode::root().push_sub_cube(SubCube::LowerSe), TestBlock(0)),
                (LocationCode::root().push_sub_cube(SubCube::LowerNw), TestBlock(0)),
                (LocationCode::root().push_sub_cube(SubCube::LowerNe), TestBlock(2)),
                (LocationCode::root().push_sub_cube(SubCube::UpperSw), TestBlock(0)),
                (LocationCode::root().push_sub_cube(SubCube::UpperSe), TestBlock(0)),
                (LocationCode::root().push_sub_cube(SubCube::UpperNw), TestBlock(0)),
                (LocationCode::root().push_sub_cube(SubCube::UpperNe), TestBlock(0)),
            ]
    );
}

#[test]
fn new_tree_is_one_present_root() {
    let tree: BlockOctree<TestBlock, BlockDefs> = BlockOctree::with_block(BlockDefs, TestBlock(7));
    assert!(matches!(tree.get_volume(root()), Some(OctreeNode::Present(TestBlock(7)))));
    assert!(tree.get_volume(root().push_sub_cube(SubCube::LowerSw)).is_none());
    assert_eq!(tree.iter(), vec![(root(), TestBlock(7))]);
    assert_eq!(tree.depth_first_blocks(), vec![(root(), TestBlock(7))]);
}

#[test]
fn coverage_holds_after_every_set_volume() {
    let mut tree: BlockOctree<TestBlock, MachineDefs> = BlockOctree::new(MachineDefs);
    let deep = root()
        .push_sub_cube(SubCube::UpperNw)
        .push_sub_cube(SubCube::LowerSe)
        .push_sub_cube(SubCube::UpperNe);
    let writes = [
        (deep, TestBlock(3), true),
        (root().push_sub_cube(SubCube::UpperNw), TestBlock(150), true),
        (deep, TestBlock(4), false),
        (root().push_sub_cube(SubCube::LowerSw).push_sub_cube(SubCube::LowerSw), TestBlock(9), true),
        (root(), TestBlock(1), true),
        (deep, TestBlock(1), true),
    ];
    for (code, value, expected) in writes.iter() {
        assert_eq!(tree.set_volume(*code, *value), *expected);
        let leaves = check_coverage(&tree, root());
        assert_eq!(leaves, tree.iter().len());
        assert_eq!(leaves, tree.depth_first_blocks().len());
    }
    // The last two writes merged everything back into the root.
    assert_eq!(tree.depth_first_blocks(), vec![(root(), TestBlock(1))]);
}

#[test]
fn set_volume_to_covering_value_changes_nothing() {
    let mut tree: BlockOctree<TestBlock, BlockDefs> = BlockOctree::new(BlockDefs);
    let corner = root().push_sub_cube(SubCube::UpperSe);
    assert!(tree.set_volume(corner, TestBlock(5)));
    let before = sorted_present(&tree);
    // Coarser: the corner holds 5 and covers this sub-volume.
    assert!(tree.set_volume(corner.push_sub_cube(SubCube::LowerNw), TestBlock(5)));
    assert_eq!(sorted_present(&tree), before);
    // Same size.
    assert!(tree.set_volume(corner, TestBlock(5)));
    assert_eq!(sorted_present(&tree), before);
    assert_eq!(before.len(), 8);
}

#[test]
fn set_volume_inside_a_machine_fails() {
    let mut tree: BlockOctree<TestBlock, MachineDefs> =
        BlockOctree::with_block(MachineDefs, TestBlock(0));
    let corner = root().push_sub_cube(SubCube::LowerNe);
    assert!(tree.set_volume(corner, TestBlock(200)));
    let before = sorted_present(&tree);
    assert!(!tree.set_volume(corner.push_sub_cube(SubCube::UpperSw), TestBlock(3)));
    assert_eq!(sorted_present(&tree), before);
    assert!(!tree.set_volume(corner.push_sub_cube(SubCube::UpperSw), TestBlock(201)));
    assert_eq!(sorted_present(&tree), before);
    // Rewriting exactly that address works.
    assert!(tree.set_volume(corner, TestBlock(3)));
    assert!(matches!(tree.get_volume(corner), Some(OctreeNode::Present(TestBlock(3)))));
}

#[test]
fn set_volume_merges_a_subtree() {
    let mut tree: BlockOctree<TestBlock, BlockDefs> = BlockOctree::new(BlockDefs);
    let deep = root().push_sub_cube(SubCube::LowerSe).push_sub_cube(SubCube::UpperNe);
    assert!(tree.set_volume(deep, TestBlock(4)));
    assert_eq!(tree.depth_first_blocks().len(), 15);
    assert!(matches!(tree.get_volume(root()), Some(OctreeNode::Subdivided)));
    assert!(tree.set_volume(root().push_sub_cube(SubCube::LowerSe), TestBlock(6)));
    assert!(tree.get_volume(deep).is_none());
    assert_eq!(tree.depth_first_blocks().len(), 8);
    assert_eq!(tree.depth_first_blocks()[1], (root().push_sub_cube(SubCube::LowerSe), TestBlock(6)));
}

#[test]
fn iter_lists_each_present_address_once() {
    let mut tree: BlockOctree<TestBlock, BlockDefs> = BlockOctree::new(BlockDefs);
    let deep = root().push_sub_cube(SubCube::UpperSw).push_sub_cube(SubCube::LowerNw);
    assert!(tree.set_volume(deep, TestBlock(8)));
    let mut from_iter: Vec<(u32, u16)> = tree.iter().iter().map(|(l, b)| (code_number(*l), b.0)).collect();
    from_iter.sort();
    assert_eq!(from_iter, sorted_present(&tree));
    assert_eq!(from_iter.len(), 15);
    assert_eq!(from_iter.iter().filter(|(_, b)| *b == 8).count(), 1);
}
