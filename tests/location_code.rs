use voxel_map::octree::{LocationCode, SubCube};

#[test]
fn test_location_code_from_root_to_here() {
    let loc_code = LocationCode::root();
    let items = loc_code.from_root_to_here();
    assert!(items == &[LocationCode::root()]);

    let loc_code = LocationCode::root()
        .push_sub_cube(SubCube::LowerSe)
        .push_sub_cube(SubCube::UpperNw);

    let items = loc_code.from_root_to_here();
    let expect = &[
        LocationCode::root(),
        LocationCode::root().push_sub_cube(SubCube::LowerSe),
        LocationCode::root()
            .push_sub_cube(SubCube::LowerSe)
            .push_sub_cube(SubCube::UpperNw),
    ];
    println!("{:?}", items);
    println!("{:?}", expect);
    assert!(items == expect);
}

#[test]
fn test_location_code_from_root_to_just_above_here() {
    let sub_area = LocationCode::root().push_sub_cube(SubCube::LowerNe);
    let items = sub_area.from_root_to_just_above_here();
    assert!(items == &[LocationCode::root()]);

    let items = LocationCode::root().from_root_to_just_above_here();
    assert!(items == &[]);
}

#[test]
fn sub_cube_and_containing_cube_undo_a_push() {
    assert_eq!(LocationCode::root().sub_cube(), None);
    assert_eq!(LocationCode::root().containing_cube(), None);
    let a = LocationCode::root().push_sub_cube(SubCube::UpperSe);
    let b = a.push_sub_cube(SubCube::LowerNw);
    assert_eq!(b.sub_cube(), Some((a, SubCube::LowerNw)));
    assert_eq!(b.containing_cube(), Some(a));
    assert_eq!(a.sub_cube(), Some((LocationCode::root(), SubCube::UpperSe)));
}

#[test]
fn push_sub_cube_differs_by_corner() {
    let all = SubCube::all_sub_cubes();
    let codes: Vec<LocationCode> = all
        .iter()
        .map(|s| LocationCode::root().push_sub_cube(*s))
        .collect();
    for i in 0..codes.len() {
        for j in 0..codes.len() {
            assert_eq!(codes[i] == codes[j], i == j);
        }
        assert_ne!(codes[i], LocationCode::root());
    }
}

#[test]
fn all_sub_cubes_in_canonical_order() {
    assert_eq!(
        SubCube::all_sub_cubes(),
        vec![
            SubCube::LowerSw,
            SubCube::LowerSe,
            SubCube::LowerNw,
            SubCube::LowerNe,
            SubCube::UpperSw,
            SubCube::UpperSe,
            SubCube::UpperNw,
            SubCube::UpperNe,
        ]
    );
}

#[test]
fn from_xyz_maps_bits_to_corners() {
    assert_eq!(SubCube::from_xyz(0, 0, 0), Some(SubCube::LowerSw));
    assert_eq!(SubCube::from_xyz(1, 0, 0), Some(SubCube::LowerSe));
    assert_eq!(SubCube::from_xyz(0, 0, 1), Some(SubCube::LowerNw));
    assert_eq!(SubCube::from_xyz(1, 0, 1), Some(SubCube::LowerNe));
    assert_eq!(SubCube::from_xyz(0, 1, 0), Some(SubCube::UpperSw));
    assert_eq!(SubCube::from_xyz(1, 1, 1), Some(SubCube::UpperNe));
    assert_eq!(SubCube::from_xyz(2, 0, 0), None);
    assert_eq!(SubCube::from_xyz(0, 0, 7), None);
}

#[test]
fn deepest_codes_still_have_a_path() {
    let mut code = LocationCode::root();
    for _ in 0..10 {
        code = code.push_sub_cube(SubCube::UpperNe);
    }
    let path = code.from_root_to_here();
    assert_eq!(path.len(), 11);
    assert_eq!(path[0], LocationCode::root());
    assert_eq!(path[10], code);
    assert_eq!(code.from_root_to_just_above_here().len(), 10);
}
