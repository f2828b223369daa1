use voxel_map::io::{read_chunk_octree, read_varint, write_chunk_octree, write_varint, ChunkDataError};
use voxel_map::octree::SubCube::{LowerNw, LowerSe, LowerSw, UpperNe, UpperSw};
use voxel_map::octree::{LocationCode, SubCube};
use voxel_map::region::{compress_chunk, decompress_chunk};
use voxel_map::{BlockHandle, Chunk, ChunkRelativeCoord, OctreeBlock};

fn code_of(corners: &[SubCube]) -> LocationCode {
    let mut code = LocationCode::root();
    for c in corners {
        code = code.push_sub_cube(*c);
    }
    code
}

#[test]
fn chunk_coordinates_map_to_depth_six_codes() {
    assert_eq!(
        ChunkRelativeCoord::new(0, 0, 0).to_location_code(),
        code_of(&[LowerSw; 6])
    );
    assert_eq!(
        ChunkRelativeCoord::new(63, 63, 63).to_location_code(),
        code_of(&[UpperNe; 6])
    );
    assert_eq!(
        ChunkRelativeCoord::new(1, 0, 0).to_location_code(),
        code_of(&[LowerSw, LowerSw, LowerSw, LowerSw, LowerSw, LowerSe])
    );
    assert_eq!(
        ChunkRelativeCoord::new(32, 0, 0).to_location_code(),
        code_of(&[LowerSe, LowerSw, LowerSw, LowerSw, LowerSw, LowerSw])
    );
    assert_eq!(
        ChunkRelativeCoord::new(0, 16, 2).to_location_code(),
        code_of(&[LowerSw, UpperSw, LowerSw, LowerSw, LowerNw, LowerSw])
    );
}

#[test]
fn distinct_coordinates_get_distinct_codes() {
    let mut seen = std::collections::HashSet::new();
    for x in [0u8, 1, 2, 3, 31, 32, 63] {
        for y in [0u8, 1, 5, 62, 63] {
            for z in [0u8, 4, 17, 63] {
                assert!(seen.insert(ChunkRelativeCoord::new(x, y, z).to_location_code()));
            }
        }
    }
}

fn dirt() -> OctreeBlock {
    OctreeBlock(Some(BlockHandle { id: 0, homogeneous: true }))
}

#[test]
fn set_block_puts_one_unit_cube() {
    let mut chunk = Chunk::new();
    chunk.set_block(ChunkRelativeCoord::new(5, 6, 7), dirt());
    let blocks = chunk.blocks();
    // Six levels split down to the cube: 6 * 7 air cubes and the block.
    assert_eq!(blocks.len(), 43);
    let with_dirt: Vec<_> = blocks.iter().filter(|(_, b)| *b == dirt()).collect();
    assert_eq!(with_dirt.len(), 1);
    assert_eq!(with_dirt[0].0, ChunkRelativeCoord::new(5, 6, 7).to_location_code());
    chunk.set_block(ChunkRelativeCoord::new(5, 6, 7), OctreeBlock(None));
    assert_eq!(chunk.blocks().len(), 43);
}

#[test]
fn a_test() {
    let mut chunk = Chunk::new();
    chunk.set_block(ChunkRelativeCoord::new(0, 0, 0), dirt());

    let chunk_on_disk = write_chunk_octree(&chunk).unwrap();
    assert_eq!(chunk_on_disk.palette, vec![dirt(), OctreeBlock(None)]);
    let mut expected = vec![1u8; 6];
    expected.extend_from_slice(&[0, 0]);
    for _ in 0..42 {
        expected.extend_from_slice(&[0, 1]);
    }
    assert_eq!(chunk_on_disk.blocks, expected);
    println!("({}B) {:?}", chunk_on_disk.blocks.len(), chunk_on_disk.blocks);

    let stored = compress_chunk(&chunk_on_disk.blocks);
    println!("With brotli: ({}B) {:?}", stored.data.len(), stored.data);
    assert_eq!(stored.compression, 1);
    assert_eq!(decompress_chunk(stored.compression, &stored.data).unwrap(), expected);
}

#[test]
fn empty_chunk_encodes_to_one_leaf() {
    let chunk = Chunk::new();
    let d = write_chunk_octree(&chunk).unwrap();
    assert_eq!(d.palette, vec![OctreeBlock(None)]);
    assert_eq!(d.blocks, vec![0, 0]);
}

#[test]
fn palette_ids_follow_depth_first_order() {
    let stone = OctreeBlock(Some(BlockHandle { id: 9, homogeneous: true }));
    let mut chunk = Chunk::new();
    chunk.set_block(ChunkRelativeCoord::new(63, 63, 63), stone);
    chunk.set_block(ChunkRelativeCoord::new(0, 0, 0), dirt());
    let d = write_chunk_octree(&chunk).unwrap();
    assert_eq!(d.palette, vec![dirt(), OctreeBlock(None), stone]);
    // The last leaf of the walk is the stone: tag 0 and id 2.
    assert_eq!(&d.blocks[d.blocks.len() - 2..], &[0, 2]);
}

#[test]
fn varint_round_trip() {
    let cases: [(u32, usize); 8] = [
        (0, 1),
        (127, 1),
        (128, 2),
        (16383, 2),
        (16384, 3),
        (2097151, 3),
        (2097152, 4),
        (u32::MAX, 5),
    ];
    for (n, len) in cases.iter() {
        let mut out = vec![0xAA];
        write_varint(&mut out, *n);
        assert_eq!(out.len(), 1 + len);
        out.push(0x55);
        assert_eq!(read_varint(&out, 1), Some((*n, 1 + len)));
    }
}

#[test]
fn varint_bytes_are_least_significant_first() {
    let mut out = Vec::new();
    write_varint(&mut out, 300);
    assert_eq!(out, vec![0xAC, 0x02]);
    let mut out = Vec::new();
    write_varint(&mut out, u32::MAX);
    assert_eq!(out, vec![0xFF, 0xFF, 0xFF, 0xFF, 0x0F]);
}

#[test]
fn varint_rejects_bad_input() {
    assert_eq!(read_varint(&[], 0), None);
    assert_eq!(read_varint(&[0x80], 0), None);
    assert_eq!(read_varint(&[0x80, 0x80, 0x80, 0x80, 0x80, 0x00], 0), None);
    assert_eq!(read_varint(&[0xFF, 0xFF, 0xFF, 0xFF, 0x1F], 0), None);
    assert_eq!(read_varint(&[0x05, 0x80], 0), Some((5, 1)));
}

#[test]
fn decode_gives_back_the_encoded_chunk() {
    let stone = OctreeBlock(Some(BlockHandle { id: 3, homogeneous: true }));
    let machine = OctreeBlock(Some(BlockHandle { id: 4, homogeneous: false }));
    let mut chunk = Chunk::new();
    chunk.set_block(ChunkRelativeCoord::new(10, 20, 30), stone);
    chunk.set_block(ChunkRelativeCoord::new(63, 0, 1), machine);
    chunk.set_block(ChunkRelativeCoord::new(0, 0, 0), dirt());
    let d = write_chunk_octree(&chunk).unwrap();
    let back = read_chunk_octree(&d.palette, &d.blocks).unwrap();
    let mut a = chunk.blocks();
    let mut b = back.blocks();
    a.sort_by_key(|(l, _)| format!("{:?}", l));
    b.sort_by_key(|(l, _)| format!("{:?}", l));
    assert_eq!(a, b);
    let again = write_chunk_octree(&back).unwrap();
    assert_eq!(again.palette, d.palette);
    assert_eq!(again.blocks, d.blocks);
}

#[test]
fn decode_rejects_corrupt_data() {
    let pal = vec![OctreeBlock(None)];
    // unknown tag
    assert_eq!(read_chunk_octree(&pal, &[2]).err(), Some(ChunkDataError::Corrupt));
    // id outside the palette
    assert_eq!(read_chunk_octree(&pal, &[0, 1]).err(), Some(ChunkDataError::Corrupt));
    // truncated: a subdivision with only one corner
    assert_eq!(read_chunk_octree(&pal, &[1, 0, 0]).err(), Some(ChunkDataError::Corrupt));
    // bytes after the root
    assert_eq!(read_chunk_octree(&pal, &[0, 0, 0]).err(), Some(ChunkDataError::Corrupt));
    // empty
    assert_eq!(read_chunk_octree(&pal, &[]).err(), Some(ChunkDataError::Corrupt));
    // a well-formed subdivision
    let ok = read_chunk_octree(&pal, &[1, 0, 0, 0, 0, 0, 0, 0, 0, 0, 0, 0, 0, 0, 0, 0, 0]).unwrap();
    assert_eq!(ok.blocks().len(), 8);
}
