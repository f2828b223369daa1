//! The binary encoding of a chunk: a palette of the distinct blocks, and the octree walked depth
//! first, one tagged record per address.
use std::collections::HashMap;

use vstd::prelude::*;

use crate::octree::{lemmas, model, BlockOctree, LocationCode, OctreeNode, SubCube};
use crate::module::BlockRegistry;
use crate::{BlockHandle, Chunk, ChunkBlockInfo, OctreeBlock};

verus! {

broadcast use vstd::std_specs::hash::group_hash_axioms;

/// The varint encoding of `n`: seven bits per byte, least significant first, the high bit set
/// on every byte but the last.
pub open spec fn varint_bytes(n: nat) -> Seq<u8>
    decreases n,
{
    if n < 128 {
        seq![n as u8]
    } else {
        seq![(n % 128 + 128) as u8] + varint_bytes(n / 128)
    }
}

/// The number of bytes of the varint encoding of `n`.
pub open spec fn varint_len(n: nat) -> nat {
    if n < 0x80 {
        1
    } else if n < 0x4000 {
        2
    } else if n < 0x20_0000 {
        3
    } else if n < 0x1000_0000 {
        4
    } else {
        5
    }
}

/// The value and the length of the varint at the start of `s`, reading at most `budget` bytes;
/// `None` where no final byte comes within them.
pub open spec fn varint_parse(s: Seq<u8>, budget: nat) -> Option<(nat, nat)>
    decreases budget,
{
    if budget == 0 || s.len() == 0 {
        None
    } else if s[0] < 128 {
        Some((s[0] as nat, 1))
    } else {
        match varint_parse(s.drop_first(), (budget - 1) as nat) {
            Some((v, l)) => Some(((s[0] - 128) as nat + 128 * v, l + 1)),
            None => None,
        }
    }
}

/// The length of the encoding of `n`, for `n` below 2^35.
pub proof fn lemma_varint_len(n: nat)
    requires
        n < 0x8_0000_0000,
    ensures
        varint_bytes(n).len() == varint_len(n),
    decreases n,
{
    if n >= 128 {
        lemma_varint_len(n / 128);
    }
}

/// Decoding the encoding of `n`, whatever follows it, gives back `n` and the length of the
/// encoding.
pub proof fn lemma_varint_parse_bytes(n: nat, tail: Seq<u8>, budget: nat)
    requires
        varint_bytes(n).len() <= budget,
    ensures
        varint_parse(varint_bytes(n) + tail, budget) == Some((n, varint_bytes(n).len())),
    decreases n,
{
    let s = varint_bytes(n) + tail;
    if n >= 128 {
        lemma_varint_parse_bytes(n / 128, tail, (budget - 1) as nat);
        assert(s.drop_first() =~= varint_bytes(n / 128) + tail);
    }
}

/// Varint round trip: every `u32` decodes, from its encoding followed by anything, to itself;
/// the encoding takes 1 byte below 2^7, 2 below 2^14, 3 below 2^21, 4 below 2^28 and 5 above.
pub proof fn lemma_varint_round_trip(n: u32, tail: Seq<u8>)
    ensures
        varint_bytes(n as nat).len() == varint_len(n as nat),
        varint_parse(varint_bytes(n as nat) + tail, 5) == Some((n as nat, varint_len(n as nat))),
{
    lemma_varint_len(n as nat);
    lemma_varint_parse_bytes(n as nat, tail, 5);
}

/// A varint never reads past the bytes it is given.
pub proof fn lemma_varint_parse_len(s: Seq<u8>, budget: nat)
    requires
        varint_parse(s, budget) is Some,
    ensures
        1 <= varint_parse(s, budget)->Some_0.1 <= s.len(),
    decreases budget,
{
    if s[0] >= 128 {
        lemma_varint_parse_len(s.drop_first(), (budget - 1) as nat);
    }
}

/// Append the varint encoding of `n` to `out`.
pub fn write_varint(out: &mut Vec<u8>, n: u32)
    ensures
        final(out)@ == old(out)@ + varint_bytes(n as nat),
{
    let mut rest: u32 = n;
    while rest >= 128
        invariant
            out@ + varint_bytes(rest as nat) == old(out)@ + varint_bytes(n as nat),
        decreases rest,
    {
        let ghost before = out@;
        out.push((rest % 128 + 128) as u8);
        assert(before + varint_bytes(rest as nat) =~= out@ + varint_bytes((rest / 128) as nat));
        rest = rest / 128;
    }
    let ghost before = out@;
    out.push(rest as u8);
    assert(before + varint_bytes(rest as nat) =~= out@);
}

/// The varint at `pos` in `bytes`, with the position just after it; `None` where it is
/// truncated, longer than five bytes, or above `u32::MAX`.
pub fn read_varint(bytes: &[u8], pos: usize) -> (r: Option<(u32, usize)>)
    requires
        pos <= bytes@.len(),
    ensures
        r == match varint_parse(bytes@.subrange(pos as int, bytes@.len() as int), 5) {
            Some((v, l)) => if v <= u32::MAX {
                Some((v as u32, (pos + l) as usize))
            } else {
                None
            },
            None => None,
        },
        r matches Some((_, next)) ==> pos < next <= bytes@.len(),
{
    proof {
        if varint_parse(bytes@.subrange(pos as int, bytes@.len() as int), 5) is Some {
            lemma_varint_parse_len(bytes@.subrange(pos as int, bytes@.len() as int), 5);
        }
    }
    read_varint_within(bytes, pos, 5)
}

fn read_varint_within(bytes: &[u8], pos: usize, budget: u8) -> (r: Option<(u32, usize)>)
    requires
        pos <= bytes@.len(),
    ensures
        r == match varint_parse(bytes@.subrange(pos as int, bytes@.len() as int), budget as nat) {
            Some((v, l)) => if v <= u32::MAX {
                Some((v as u32, (pos + l) as usize))
            } else {
                None
            },
            None => None,
        },
        r matches Some((_, next)) ==> pos < next <= bytes@.len(),
    decreases budget,
{
    let ghost s = bytes@.subrange(pos as int, bytes@.len() as int);
    proof {
        if varint_parse(s, budget as nat) is Some {
            lemma_varint_parse_len(s, budget as nat);
        }
    }
    if budget == 0 || pos >= bytes.len() {
        return None;
    }
    let b = bytes[pos];
    if b < 128 {
        return Some((b as u32, pos + 1));
    }
    assert(s.drop_first() =~= bytes@.subrange(pos + 1, bytes@.len() as int));
    match read_varint_within(bytes, pos + 1, budget - 1) {
        Some((v, next)) => {
            if v > 0x1FF_FFFF {
                None
            } else {
                Some(((b - 128) as u32 + 128 * v, next))
            }
        },
        None => {
            proof {
                if let Some((v, l)) = varint_parse(s.drop_first(), (budget - 1) as nat) {
                    assert(v > u32::MAX);
                }
            }
            None
        },
    }
}

/// The items of `s`, each once, in the order of their first appearance.
pub open spec fn distinct_in_order<A>(s: Seq<A>) -> Seq<A>
    decreases s.len(),
{
    if s.len() == 0 {
        seq![]
    } else {
        let p = distinct_in_order(s.drop_last());
        if p.contains(s.last()) {
            p
        } else {
            p.push(s.last())
        }
    }
}

/// Facts about `distinct_in_order`: no item twice, every item of `s` there, no longer than `s`.
pub proof fn lemma_distinct_in_order<A>(s: Seq<A>)
    ensures
        distinct_in_order(s).no_duplicates(),
        forall|j: int| 0 <= j < s.len() ==> distinct_in_order(s).contains(#[trigger] s[j]),
        distinct_in_order(s).len() <= s.len(),
    decreases s.len(),
{
    if s.len() > 0 {
        lemma_distinct_in_order(s.drop_last());
        assert forall|j: int| 0 <= j < s.len() implies distinct_in_order(s).contains(
            #[trigger] s[j],
        ) by {
            let p = distinct_in_order(s.drop_last());
            if j < s.len() - 1 {
                assert(s.drop_last()[j] == s[j]);
                assert(p.contains(s[j]));
                if !p.contains(s.last()) {
                    let k = choose|k: int| 0 <= k < p.len() && p[k] == s[j];
                    assert(p.push(s.last())[k] == s[j]);
                }
            } else if !p.contains(s.last()) {
                assert(p.push(s.last())[p.len() as int] == s[j]);
            }
        }
    }
}

/// The place of block `b` in the palette `pal`.
pub open spec fn palette_index(pal: Seq<OctreeBlock>, b: OctreeBlock) -> int {
    choose|i: int| 0 <= i < pal.len() && pal[i] == b
}

/// The encoding of the address `c` of `m` and of everything inside it: `0` and the varint of
/// the block's place in `pal` for a present address, `1` and then the eight corners in the
/// canonical order for a subdivided one.
pub open spec fn tree_bytes(m: Map<u32, OctreeNode<OctreeBlock>>, c: u32, pal: Seq<OctreeBlock>) -> Seq<
    u8,
>
    decreases 0x1_0000_0000 - c, 9int,
{
    if !m.contains_key(c) {
        seq![]
    } else {
        match m[c] {
            OctreeNode::Present(t) => seq![0u8] + varint_bytes(palette_index(pal, t) as nat),
            OctreeNode::Subdivided => if 1 <= c < 0x2000_0000 {
                seq![1u8] + corners_bytes(m, c, 8, pal)
            } else {
                seq![]
            },
        }
    }
}

/// The encodings of the first `i` corners of `c`, one after the other.
pub open spec fn corners_bytes(
    m: Map<u32, OctreeNode<OctreeBlock>>,
    c: u32,
    i: int,
    pal: Seq<OctreeBlock>,
) -> Seq<u8>
    decreases 0x1_0000_0000 - c, i,
{
    if i <= 0 || i > 8 || c < 1 || c >= 0x2000_0000 {
        seq![]
    } else {
        corners_bytes(m, c, i - 1, pal) + tree_bytes(m, model::child(c, i - 1), pal)
    }
}

/// Every block of the depth-first sequence `s` is in the palette `pal`.
pub open spec fn blocks_in(s: Seq<(u32, OctreeBlock)>, pal: Seq<OctreeBlock>) -> bool {
    forall|j: int| 0 <= j < s.len() ==> pal.contains(#[trigger] s[j].1)
}

proof fn lemma_blocks_in_corners(
    m: Map<u32, OctreeNode<OctreeBlock>>,
    c: u32,
    n: int,
    pal: Seq<OctreeBlock>,
)
    requires
        0 <= n <= 8,
        1 <= c < 0x2000_0000,
        blocks_in(model::corners_preorder(m, c, n), pal),
    ensures
        forall|i: int| 0 <= i < n ==> blocks_in(model::preorder(m, #[trigger] model::child(c, i)), pal),
    decreases n,
{
    if n > 0 {
        let a = model::corners_preorder(m, c, n - 1);
        let b = model::preorder(m, model::child(c, n - 1));
        assert(model::corners_preorder(m, c, n) == a + b);
        assert forall|j: int| 0 <= j < a.len() implies pal.contains(#[trigger] a[j].1) by {
            assert((a + b)[j] == a[j]);
        }
        assert forall|j: int| 0 <= j < b.len() implies pal.contains(#[trigger] b[j].1) by {
            assert((a + b)[a.len() + j] == b[j]);
        }
        lemma_blocks_in_corners(m, c, n - 1, pal);
    }
}

/// A chunk as it is stored: the distinct blocks of the chunk, and the encoding of its octree,
/// which refers to each block by its place in the palette.
pub struct ChunkOnDisk {
    pub palette: Vec<OctreeBlock>,
    pub blocks: Vec<u8>,
}

/// Encode `chunk`: the palette lists the distinct blocks in the order in which a depth-first
/// walk meets them, and the blocks are the encoding of the octree from its root. `None` where
/// the chunk has more than `u32::MAX` present addresses, so that a place in the palette might
/// not fit a `u32`.
pub fn write_chunk_octree(chunk: &Chunk) -> (r: Option<ChunkOnDisk>)
    requires
        chunk.wf(),
    ensures
        r is None <==> model::preorder(chunk@, 1).len() > u32::MAX,
        r matches Some(d) ==> {
            &&& d.palette@ == distinct_in_order(
                model::preorder(chunk@, 1).map_values(|p: (u32, OctreeBlock)| p.1),
            )
            &&& d.blocks@ == tree_bytes(chunk@, 1, d.palette@)
        },
{
    let tree = chunk.get_octree();
    let ghost m = tree@;
    let leaves = tree.depth_first_blocks();
    let ghost pre = model::preorder(m, 1);
    let ghost vals = pre.map_values(|p: (u32, OctreeBlock)| p.1);
    assert(leaves@.len() == pre.len()) by {
        assert(leaves@.map_values(|p: (LocationCode, OctreeBlock)| (p.0.value(), p.1)).len()
            == leaves@.len());
    }
    assert forall|j: int| 0 <= j < leaves@.len() implies #[trigger] leaves@[j].1 == vals[j] by {
        assert(leaves@.map_values(|p: (LocationCode, OctreeBlock)| (p.0.value(), p.1))[j]
            == pre[j]);
    }
    if leaves.len() > 0xFFFF_FFFF {
        return None;
    }
    // Each distinct block, by its key, and its place in the palette.
    let mut ids: HashMap<u64, usize> = HashMap::new();
    let mut palette: Vec<OctreeBlock> = Vec::new();
    let mut i: usize = 0;
    assert(ids@ =~= Map::<u64, usize>::empty());
    while i < leaves.len()
        invariant
            0 <= i <= leaves@.len(),
            leaves@.len() == vals.len(),
            forall|j: int| 0 <= j < leaves@.len() ==> #[trigger] leaves@[j].1 == vals[j],
            palette@ == distinct_in_order(vals.subrange(0, i as int)),
            indexes(ids@, palette@),
        decreases leaves@.len() - i,
    {
        let b = leaves[i].1;
        let key = block_key_of(b);
        let ghost prefix = vals.subrange(0, i as int);
        assert(vals.subrange(0, i + 1).drop_last() =~= prefix);
        let found = ids.get(&key).is_some();
        proof {
            if found {
                let j = ids@[key] as int;
                lemma_block_key_injective(palette@[j], b);
                assert(palette@.contains(b));
            } else if palette@.contains(b) {
                let j = choose|j: int| 0 <= j < palette@.len() && palette@[j] == b;
                assert(ids@.contains_key(block_key(palette@[j])));
            }
        }
        if !found {
            let ghost before = palette@;
            ids.insert(key, palette.len());
            palette.push(b);
            proof {
                assert forall|k: u64| #[trigger] ids@.contains_key(k) implies ids@[k] < palette@.len()
                    && block_key(palette@[ids@[k] as int]) == k by {
                    if k != key {
                        assert(palette@[ids@[k] as int] == before[ids@[k] as int]);
                    }
                }
                assert forall|j: int| 0 <= j < palette@.len() implies ids@.contains_key(
                    #[trigger] block_key(palette@[j]),
                ) && ids@[block_key(palette@[j])] == j by {
                    if j < before.len() {
                        assert(palette@[j] == before[j]);
                        if block_key(before[j]) == key {
                            lemma_block_key_injective(before[j], b);
                        }
                    }
                }
            }
        }
        i = i + 1;
    }
    proof {
        assert(vals.subrange(0, i as int) =~= vals);
        lemma_distinct_in_order(vals);
        assert forall|j: int| 0 <= j < pre.len() implies palette@.contains(#[trigger] pre[j].1) by {
            assert(vals[j] == pre[j].1);
        }
        lemmas::lemma_path(1);
    }
    let mut blocks: Vec<u8> = Vec::new();
    encode_node(tree, LocationCode::root(), &palette, &ids, &mut blocks);
    assert(blocks@ =~= tree_bytes(m, 1, palette@));
    Some(ChunkOnDisk { palette, blocks })
}

/// The key of a block: distinct blocks have distinct keys.
pub open spec fn block_key(b: OctreeBlock) -> u64 {
    match b.0 {
        None => 0,
        Some(h) => (2 * h.id + (if h.homogeneous {
            1int
        } else {
            0int
        }) + 1) as u64,
    }
}

/// Blocks with equal keys are equal.
pub proof fn lemma_block_key_injective(a: OctreeBlock, b: OctreeBlock)
    requires
        block_key(a) == block_key(b),
    ensures
        a == b,
{
}

/// The key of `b`.
fn block_key_of(b: OctreeBlock) -> (r: u64)
    ensures
        r == block_key(b),
{
    match b.0 {
        None => 0,
        Some(h) => 2 * (h.id as u64) + (if h.homogeneous {
            1
        } else {
            0
        }) + 1,
    }
}

/// `ids` maps the key of each block of `pal` to its place there, and holds no other key.
pub open spec fn indexes(ids: Map<u64, usize>, pal: Seq<OctreeBlock>) -> bool {
    &&& forall|k: u64| #[trigger]
        ids.contains_key(k) ==> ids[k] < pal.len() && block_key(pal[ids[k] as int]) == k
    &&& forall|j: int|
        0 <= j < pal.len() ==> ids.contains_key(#[trigger] block_key(pal[j])) && ids[block_key(
            pal[j],
        )] == j
}

/// Append the encoding of `c` and everything inside it to `out`.
fn encode_node(
    tree: &BlockOctree<OctreeBlock, ChunkBlockInfo>,
    c: LocationCode,
    palette: &Vec<OctreeBlock>,
    ids: &HashMap<u64, usize>,
    out: &mut Vec<u8>,
)
    requires
        tree.wf(),
        tree@.contains_key(c.value()),
        indexes(ids@, palette@),
        palette@.no_duplicates(),
        palette@.len() <= 0x1_0000_0000,
        blocks_in(model::preorder(tree@, c.value()), palette@),
    ensures
        final(out)@ == old(out)@ + tree_bytes(tree@, c.value(), palette@),
    decreases 0x1_0000_0000 - c.value(), 9int,
{
    let ghost m = tree@;
    let ghost v = c.value();
    match tree.get_volume(c) {
        Some(OctreeNode::Present(t)) => {
            let t = *t;
            assert(model::preorder(m, v)[0] == (v, t));
            assert(palette@.contains(model::preorder(m, v)[0].1));
            proof {
                let j = choose|j: int| 0 <= j < palette@.len() && palette@[j] == t;
                assert(ids@.contains_key(block_key(palette@[j])));
            }
            let id = *ids.get(&block_key_of(t)).unwrap();
            proof {
                lemma_block_key_injective(palette@[id as int], t);
            }
            assert(palette_index(palette@, t) == id as int) by {
                assert(palette@[id as int] == t);
            }
            let ghost before = out@;
            out.push(0);
            write_varint(out, id as u32);
            assert(out@ =~= before + tree_bytes(m, v, palette@));
        },
        Some(OctreeNode::Subdivided) => {
            let ghost start = out@;
            out.push(1);
            assert(v < 0x2000_0000 && v >= 1);
            proof {
                lemma_blocks_in_corners(m, v, 8, palette@);
            }
            let sub_cubes = SubCube::all_sub_cubes();
            let mut i: usize = 0;
            assert(out@ =~= start + seq![1u8] + corners_bytes(m, v, 0, palette@));
            while i < 8
                invariant
                    0 <= i <= 8,
                    sub_cubes@.len() == 8,
                    forall|j: int| 0 <= j < 8 ==> (#[trigger] sub_cubes@[j]).bits() == j,
                    tree.wf(),
                    m == tree@,
                    v == c.value(),
                    m.contains_key(v),
                    m[v] is Subdivided,
                    1 <= v < 0x2000_0000,
                    palette@.no_duplicates(),
                    indexes(ids@, palette@),
                    palette@.len() <= 0x1_0000_0000,
                    forall|j: int| 0 <= j < 8 ==> blocks_in(model::preorder(m, #[trigger] model::child(v, j)), palette@),
                    out@ == start + seq![1u8] + corners_bytes(m, v, i as int, palette@),
                decreases 8 - i,
            {
                let corner = c.push_sub_cube(sub_cubes[i]);
                assert(m.contains_key(model::child(v, i as int)));
                encode_node(tree, corner, palette, ids, out);
                i = i + 1;
                assert(start + seq![1u8] + corners_bytes(m, v, i as int, palette@) =~= start + seq![
                    1u8,
                ] + corners_bytes(m, v, i - 1, palette@) + tree_bytes(m, model::child(v, i - 1), palette@));
            }
        },
        None => {},
    }
}

/// The palette as it is written out: for each block, the module id and block id of its
/// definition in `registry`, `None` for empty space. `None` where a block's id is unknown to
/// the registry.
pub fn palette_names(registry: &BlockRegistry, palette: &Vec<OctreeBlock>) -> (r: Option<
    Vec<Option<(String, String)>>,
>)
    ensures
        r is None <==> exists|i: int|
            0 <= i < palette@.len() && ((#[trigger] palette@[i]).0 matches Some(h) && h.id
                >= registry@.len()),
        r matches Some(names) ==> names@.len() == palette@.len() && forall|i: int|
            0 <= i < palette@.len() ==> match (#[trigger] palette@[i]).0 {
                None => names@[i] is None,
                Some(h) => names@[i] matches Some((m, b)) && m@ == registry@[h.id as int].0 && b@
                    == registry@[h.id as int].1,
            },
{
    let mut names: Vec<Option<(String, String)>> = Vec::new();
    let mut i: usize = 0;
    while i < palette.len()
        invariant
            0 <= i <= palette@.len(),
            names@.len() == i,
            forall|j: int|
                0 <= j < i ==> match (#[trigger] palette@[j]).0 {
                    None => names@[j] is None,
                    Some(h) => h.id < registry@.len() && (names@[j] matches Some((m, b)) && m@
                        == registry@[h.id as int].0 && b@ == registry@[h.id as int].1),
                },
        decreases palette@.len() - i,
    {
        match palette[i].0 {
            None => names.push(None),
            Some(h) => match registry.names(h) {
                Some(pair) => names.push(Some(pair)),
                None => return None,
            },
        }
        i = i + 1;
    }
    Some(names)
}

/// The palette that a list of names denotes in `registry`: each pair becomes the handle of
/// that definition, `None` stays empty space. `None` where a pair names no registered
/// definition.
pub fn palette_from_names(registry: &BlockRegistry, names: &Vec<Option<(String, String)>>) -> (r:
    Option<Vec<OctreeBlock>>)
    requires
        registry@.len() <= 0x1_0000_0000,
    ensures
        r is None <==> exists|i: int|
            0 <= i < names@.len() && ((#[trigger] names@[i]) matches Some((m, b))
                && crate::module::registry_index(registry@, m@, b@) is None),
        r matches Some(pal) ==> pal@.len() == names@.len() && forall|i: int|
            0 <= i < names@.len() ==> match #[trigger] names@[i] {
                None => pal@[i].0 is None,
                Some((m, b)) => pal@[i].0 == Some(
                    BlockHandle {
                        id: crate::module::registry_index(registry@, m@, b@)->Some_0 as u32,
                        homogeneous: registry@[crate::module::registry_index(registry@, m@, b@)->Some_0].2,
                    },
                ),
            },
{
    let mut pal: Vec<OctreeBlock> = Vec::new();
    let mut i: usize = 0;
    while i < names.len()
        invariant
            0 <= i <= names@.len(),
            registry@.len() <= 0x1_0000_0000,
            pal@.len() == i,
            forall|j: int|
                0 <= j < i ==> match #[trigger] names@[j] {
                    None => pal@[j].0 is None,
                    Some((m, b)) => crate::module::registry_index(registry@, m@, b@) is Some && pal@[j].0 == Some(
                        BlockHandle {
                            id: crate::module::registry_index(registry@, m@, b@)->Some_0 as u32,
                            homogeneous: registry@[crate::module::registry_index(registry@, m@, b@)->Some_0].2,
                        },
                    ),
                },
        decreases names@.len() - i,
    {
        match &names[i] {
            None => pal.push(OctreeBlock(None)),
            Some((m, b)) => match registry.handle(m.as_str(), b.as_str()) {
                Some(h) => pal.push(OctreeBlock(Some(h))),
                None => return None,
            },
        }
        i = i + 1;
    }
    Some(pal)
}

/// Why encoded chunk data could not be decoded.
#[derive(Copy, Clone, Debug, PartialEq, Eq, Structural)]
pub enum ChunkDataError {
    /// The bytes are not the encoding of an octree over the palette: a tag other than `0` or
    /// `1`, a truncated record, a place outside the palette, a subdivision deeper than a
    /// location code can hold, or bytes after the root's last record.
    Corrupt,
}

/// The octree whose encoding starts at `pos` in `s`, for the cube `c`, with the position just
/// after it; `None` where the bytes there encode no octree over the palette `pal`.
pub open spec fn parse_tree(s: Seq<u8>, pos: int, c: u32, pal: Seq<OctreeBlock>) -> Option<
    (Map<u32, OctreeNode<OctreeBlock>>, int),
>
    decreases 0x1_0000_0000 - c, 9int,
{
    if pos < 0 || pos >= s.len() {
        None
    } else if s[pos] == 0 {
        match varint_parse(s.subrange(pos + 1, s.len() as int), 5) {
            Some((id, l)) => if id < pal.len() && id <= u32::MAX {
                Some((map![c => OctreeNode::Present(pal[id as int])], pos + 1 + l))
            } else {
                None
            },
            None => None,
        }
    } else if s[pos] == 1 && 1 <= c < 0x2000_0000 {
        match parse_corners(s, pos + 1, c, 8, pal) {
            Some((m, end)) => Some((m.insert(c, OctreeNode::Subdivided), end)),
            None => None,
        }
    } else {
        None
    }
}

/// The octrees of the first `i` corners of `c`, encoded one after the other from `pos`, merged
/// into one map, with the position after the last.
pub open spec fn parse_corners(s: Seq<u8>, pos: int, c: u32, i: int, pal: Seq<OctreeBlock>) -> Option<
    (Map<u32, OctreeNode<OctreeBlock>>, int),
>
    decreases 0x1_0000_0000 - c, i,
{
    if i <= 0 || i > 8 || c < 1 || c >= 0x2000_0000 {
        Some((Map::empty(), pos))
    } else {
        match parse_corners(s, pos, c, i - 1, pal) {
            Some((m1, p1)) => match parse_tree(s, p1, model::child(c, i - 1), pal) {
                Some((m2, p2)) => Some((m1.union_prefer_right(m2), p2)),
                None => None,
            },
            None => None,
        }
    }
}

/// Decode a chunk from its palette and its encoded octree. `Ok` exactly where the blocks are,
/// with nothing after them, the encoding of an octree over the palette; the chunk then has
/// that octree.
pub fn read_chunk_octree(palette: &Vec<OctreeBlock>, blocks: &[u8]) -> (r: Result<
    Chunk,
    ChunkDataError,
>)
    ensures
        match parse_tree(blocks@, 0, 1, palette@) {
            Some((m, end)) => if end == blocks@.len() {
                r matches Ok(chunk) && chunk.wf() && chunk@ == m
            } else {
                r == Err::<Chunk, ChunkDataError>(ChunkDataError::Corrupt)
            },
            None => r == Err::<Chunk, ChunkDataError>(ChunkDataError::Corrupt),
        },
{
    let mut map: HashMap<u32, OctreeNode<OctreeBlock>> = HashMap::new();
    let decoded = decode_node(blocks, 0, LocationCode::root(), palette, &mut map);
    match decoded {
        Some(end) => {
            if end == blocks.len() {
                proof {
                    let m = parse_tree(blocks@, 0, 1, palette@)->Some_0.0;
                    assert(map@ =~= m);
                    lemma_parsed_tree_shape(blocks@, 0, 1, palette@);
                    lemma_rooted_at_root_covers(map@);
                }
                Ok(Chunk::from_map(map))
            } else {
                Err(ChunkDataError::Corrupt)
            }
        },
        None => Err(ChunkDataError::Corrupt),
    }
}

/// `m` is an octree of the cube `c`: `c` is there and everything in it lies inside `c`; every
/// other address is a corner of a subdivided one; every subdivided address has room for and
/// holds its eight corners.
pub open spec fn rooted_at(m: Map<u32, OctreeNode<OctreeBlock>>, c: u32) -> bool {
    &&& m.contains_key(c)
    &&& forall|k: u32| #[trigger] m.contains_key(k) ==> model::location_code_contains(c, k)
    &&& forall|k: u32| #[trigger]
        m.contains_key(k) && k != c ==> m.contains_key(k / 8) && m[k / 8] is Subdivided
    &&& forall|k: u32| #[trigger] m.contains_key(k) && m[k] is Subdivided ==> k < 0x2000_0000
    &&& forall|k: u32, i: int|
        m.contains_key(k) && m[k] is Subdivided && 0 <= i < 8 ==> #[trigger] m.contains_key(
            model::child(k, i),
        )
}

/// The first `i` corners of `c` merged: as `rooted_at` for each corner.
pub open spec fn corners_shape(m: Map<u32, OctreeNode<OctreeBlock>>, c: u32, i: int) -> bool {
    &&& forall|k: u32| #[trigger]
        m.contains_key(k) ==> model::strictly_inside(k, c)
            && model::corner_of(c as int, k as int) < i
    &&& forall|j: int| 0 <= j < i ==> m.contains_key(#[trigger] model::child(c, j))
    &&& forall|k: u32| #[trigger]
        m.contains_key(k) && k / 8 != c ==> m.contains_key(k / 8) && m[k / 8] is Subdivided
    &&& forall|k: u32| #[trigger] m.contains_key(k) && m[k] is Subdivided ==> k < 0x2000_0000
    &&& forall|k: u32, j: int|
        m.contains_key(k) && m[k] is Subdivided && 0 <= j < 8 ==> #[trigger] m.contains_key(
            model::child(k, j),
        )
}

/// What `parse_tree` returns is an octree of `c`.
pub proof fn lemma_parsed_tree_shape(s: Seq<u8>, pos: int, c: u32, pal: Seq<OctreeBlock>)
    requires
        c >= 1,
        parse_tree(s, pos, c, pal) is Some,
    ensures
        rooted_at(parse_tree(s, pos, c, pal)->Some_0.0, c),
    decreases 0x1_0000_0000 - c, 9int,
{
    let m = parse_tree(s, pos, c, pal)->Some_0.0;
    assert(model::location_code_contains(c, c));
    if s[pos] == 1 {
        lemma_parsed_corners_shape(s, pos + 1, c, 8, pal);
        let m8 = parse_corners(s, pos + 1, c, 8, pal)->Some_0.0;
        assert forall|k: u32| #[trigger] m.contains_key(k) && k != c implies m.contains_key(k / 8)
            && m[k / 8] is Subdivided by {
            assert(m8.contains_key(k));
        }
        assert forall|k: u32, i: int|
            m.contains_key(k) && m[k] is Subdivided && 0 <= i < 8 implies #[trigger] m.contains_key(
            model::child(k, i),
        ) by {
            if k != c {
                assert(m8.contains_key(k));
            }
        }
    } else {
        assert(m.dom() =~= set![c]);
    }
}

/// What `parse_corners` returns is the merge of octrees of the first `i` corners of `c`.
pub proof fn lemma_parsed_corners_shape(s: Seq<u8>, pos: int, c: u32, i: int, pal: Seq<OctreeBlock>)
    requires
        0 <= i <= 8,
        1 <= c < 0x2000_0000,
        parse_corners(s, pos, c, i, pal) is Some,
    ensures
        corners_shape(parse_corners(s, pos, c, i, pal)->Some_0.0, c, i),
    decreases 0x1_0000_0000 - c, i,
{
    if i > 0 {
        lemma_parsed_corners_shape(s, pos, c, i - 1, pal);
        let (m1, p1) = parse_corners(s, pos, c, i - 1, pal)->Some_0;
        let ci = model::child(c, i - 1);
        lemma_parsed_tree_shape(s, p1, ci, pal);
        let m2 = parse_tree(s, p1, ci, pal)->Some_0.0;
        let m = m1.union_prefer_right(m2);
        assert(ci / 8 == c && ci as int == 8 * c + i - 1);
        assert(model::location_code_contains(c, ci)) by {
            assert(model::location_code_contains(c, ci / 8));
        }
        assert(model::corner_of(c as int, ci as int) == i - 1);
        assert forall|k: u32| m2.contains_key(k) implies model::strictly_inside(k, c)
            && model::corner_of(c as int, k as int) == i - 1 by {
            lemmas::lemma_contains_trans(c as int, ci as int, k as int);
            lemmas::lemma_inside_a_corner(c as int, k as int);
            lemmas::lemma_corners_disjoint(
                c as int,
                model::corner_of(c as int, k as int),
                i - 1,
                k as int,
            );
        }
        assert forall|k: u32| #[trigger]
            m.contains_key(k) && k / 8 != c implies m.contains_key(k / 8) && m[k / 8] is Subdivided by {
            if m2.contains_key(k) {
                assert(k != ci);
            } else {
                assert(m1.contains_key(k / 8));
                assert(m1.contains_key(k / 8));
            }
        }
    }
}

/// An octree of the root satisfies the coverage invariant.
pub proof fn lemma_rooted_at_root_covers(m: Map<u32, OctreeNode<OctreeBlock>>)
    requires
        rooted_at(m, 1),
    ensures
        model::covers(m),
{
    assert forall|k: u32| #[trigger] m.contains_key(k) implies model::is_code_value(k) by {
        lemmas::lemma_inside_root_is_code(k as int);
    }
}

/// Where `a + b` stands at `pos` in `s`, `a` stands at `pos` and `b` right after it.
proof fn lemma_split_at(s: Seq<u8>, pos: int, a: Seq<u8>, b: Seq<u8>)
    requires
        0 <= pos,
        pos + a.len() + b.len() <= s.len(),
        s.subrange(pos, pos + a.len() + b.len()) == a + b,
    ensures
        s.subrange(pos, pos + a.len()) == a,
        s.subrange(pos + a.len(), pos + a.len() + b.len()) == b,
{
    let w = s.subrange(pos, pos + a.len() + b.len());
    assert forall|j: int| 0 <= j < a.len() implies #[trigger] s[pos + j] == a[j] by {
        assert(w[j] == s[pos + j]);
        assert((a + b)[j] == a[j]);
    }
    assert forall|j: int| 0 <= j < b.len() implies #[trigger] s[pos + a.len() + j] == b[j] by {
        assert(w[a.len() + j] == s[pos + a.len() + j]);
        assert((a + b)[a.len() + j] == b[j]);
    }
    assert(s.subrange(pos, pos + a.len()) =~= a);
    let q = pos + a.len();
    let t = s.subrange(q, q + b.len());
    assert forall|j: int| 0 <= j < b.len() implies #[trigger] t[j] == b[j] by {
        assert(t[j] == s[q + j]);
        assert(s[pos + a.len() + j] == b[j]);
    }
    assert(t =~= b);
}

/// The addresses of `m` at or inside `c`.
pub open spec fn subtree(m: Map<u32, OctreeNode<OctreeBlock>>, c: u32) -> Map<u32, OctreeNode<OctreeBlock>> {
    m.restrict(Set::new(|k: u32| model::location_code_contains(c, k)))
}

/// The encoding of an address, found at `pos` in any bytes, parses back to the address and
/// everything inside it.
pub proof fn lemma_tree_bytes_parse(
    m: Map<u32, OctreeNode<OctreeBlock>>,
    c: u32,
    pal: Seq<OctreeBlock>,
    s: Seq<u8>,
    pos: int,
)
    requires
        model::covers(m),
        m.contains_key(c),
        pal.no_duplicates(),
        pal.len() <= 0x1_0000_0000,
        blocks_in(model::preorder(m, c), pal),
        0 <= pos,
        pos + tree_bytes(m, c, pal).len() <= s.len(),
        s.subrange(pos, pos + tree_bytes(m, c, pal).len()) == tree_bytes(m, c, pal),
    ensures
        parse_tree(s, pos, c, pal) == Some((subtree(m, c), pos + tree_bytes(m, c, pal).len())),
    decreases 0x1_0000_0000 - c, 9int,
{
    let bytes = tree_bytes(m, c, pal);
    let len = bytes.len() as int;
    assert(s[pos] == bytes[0]) by {
        assert(s.subrange(pos, pos + len)[0] == s[pos]);
    }
    match m[c] {
        OctreeNode::Present(t) => {
            assert(model::preorder(m, c)[0] == (c, t));
            assert(pal.contains(model::preorder(m, c)[0].1));
            let idx = palette_index(pal, t);
            assert(0 <= idx < pal.len() && pal[idx] == t);
            let v = varint_bytes(idx as nat);
            assert(bytes == seq![0u8] + v);
            lemma_split_at(s, pos, seq![0u8], v);
            lemma_varint_round_trip(idx as u32, s.subrange(pos + len, s.len() as int));
            assert(s.subrange(pos + 1, s.len() as int) =~= v + s.subrange(pos + len, s.len() as int));
            lemmas::lemma_present_has_nothing_inside(m, c);
            assert forall|k: u32| m.contains_key(k) && model::location_code_contains(c, k)
                implies k == c by {
                if k != c {
                    assert(model::clear_below(m, c).contains_key(k));
                }
            }
            assert(subtree(m, c) =~= map![c => OctreeNode::Present(pal[idx])]);
        },
        OctreeNode::Subdivided => {
            assert(1 <= c < 0x2000_0000) by {
                assert(model::is_code_value(c));
            }
            let cb = corners_bytes(m, c, 8, pal);
            assert(bytes == seq![1u8] + cb);
            lemma_split_at(s, pos, seq![1u8], cb);
            lemmas::lemma_path(1);
            lemma_blocks_in_corners(m, c, 8, pal);
            lemma_corners_bytes_parse(m, c, 8, pal, s, pos + 1);
            let m8 = parse_corners(s, pos + 1, c, 8, pal)->Some_0.0;
            assert forall|k: u32| m.contains_key(k) && model::strictly_inside(k, c) implies
                model::corner_of(c as int, k as int) < 8 by {
                lemmas::lemma_inside_a_corner(c as int, k as int);
            }
            assert(model::location_code_contains(c, c));
            assert forall|k: u32| #[trigger] subtree(m, c).contains_key(k) <==> m8.insert(
                c,
                OctreeNode::Subdivided,
            ).contains_key(k) by {
                if k != c && m.contains_key(k) && model::location_code_contains(c, k) {
                    lemmas::lemma_inside_a_corner(c as int, k as int);
                }
            }
            assert(m8.insert(c, OctreeNode::Subdivided) =~= subtree(m, c));
        },
    }
}

/// The encodings of the first `i` corners of `c`, found at `pos`, parse back to those corners
/// and everything inside them.
pub proof fn lemma_corners_bytes_parse(
    m: Map<u32, OctreeNode<OctreeBlock>>,
    c: u32,
    i: int,
    pal: Seq<OctreeBlock>,
    s: Seq<u8>,
    pos: int,
)
    requires
        model::covers(m),
        m.contains_key(c),
        m[c] is Subdivided,
        1 <= c < 0x2000_0000,
        0 <= i <= 8,
        pal.no_duplicates(),
        pal.len() <= 0x1_0000_0000,
        forall|j: int| 0 <= j < 8 ==> blocks_in(model::preorder(m, #[trigger] model::child(c, j)), pal),
        0 <= pos,
        pos + corners_bytes(m, c, i, pal).len() <= s.len(),
        s.subrange(pos, pos + corners_bytes(m, c, i, pal).len()) == corners_bytes(m, c, i, pal),
    ensures
        parse_corners(s, pos, c, i, pal) == Some(
            (
                m.restrict(
                    Set::new(
                        |k: u32|
                            model::strictly_inside(k, c) && model::corner_of(
                                c as int,
                                k as int,
                            ) < i,
                    ),
                ),
                pos + corners_bytes(m, c, i, pal).len(),
            ),
        ),
    decreases 0x1_0000_0000 - c, i,
{
    let target = m.restrict(
        Set::new(
            |k: u32|
                model::strictly_inside(k, c) && model::corner_of(c as int, k as int)
                    < i,
        ),
    );
    if i == 0 {
        assert forall|k: u32| model::strictly_inside(k, c) implies model::corner_of(
            c as int,
            k as int,
        ) >= 0 by {
            lemmas::lemma_inside_a_corner(c as int, k as int);
        }
        assert(target =~= Map::empty());
    } else {
        let a = corners_bytes(m, c, i - 1, pal);
        let ci = model::child(c, i - 1);
        let b = tree_bytes(m, ci, pal);
        assert(corners_bytes(m, c, i, pal) == a + b);
        lemma_split_at(s, pos, a, b);
        lemma_corners_bytes_parse(m, c, i - 1, pal, s, pos);
        assert(m.contains_key(ci));
        assert(ci / 8 == c && ci as int == 8 * c + i - 1);
        lemma_tree_bytes_parse(m, ci, pal, s, pos + a.len());
        let prev = m.restrict(
            Set::new(
                |k: u32|
                    model::strictly_inside(k, c) && model::corner_of(
                        c as int,
                        k as int,
                    ) < i - 1,
            ),
        );
        assert(model::location_code_contains(c, ci)) by {
            assert(model::location_code_contains(c, ci / 8));
        }
        assert forall|k: u32| #[trigger] target.contains_key(k) <==> prev.union_prefer_right(
            subtree(m, ci),
        ).contains_key(k) by {
            if model::location_code_contains(ci, k) {
                lemmas::lemma_contains_trans(c as int, ci as int, k as int);
                lemmas::lemma_inside_a_corner(c as int, k as int);
                lemmas::lemma_corners_disjoint(
                    c as int,
                    model::corner_of(c as int, k as int),
                    i - 1,
                    k as int,
                );
            }
            if model::strictly_inside(k, c) && model::corner_of(c as int, k as int)
                == i - 1 {
                lemmas::lemma_inside_a_corner(c as int, k as int);
            }
        }
        assert(target =~= prev.union_prefer_right(subtree(m, ci)));
    }
}

/// Chunk codec round trip: decoding what `write_chunk_octree` makes of a chunk gives back the
/// chunk's octree, address for address.
pub proof fn lemma_chunk_codec_round_trip(m: Map<u32, OctreeNode<OctreeBlock>>, pal: Seq<OctreeBlock>)
    requires
        model::covers(m),
        model::preorder(m, 1).len() <= u32::MAX,
        pal == distinct_in_order(
            model::preorder(m, 1).map_values(|p: (u32, OctreeBlock)| p.1),
        ),
    ensures
        parse_tree(tree_bytes(m, 1, pal), 0, 1, pal) == Some((m, tree_bytes(m, 1, pal).len() as int)),
{
    let pre = model::preorder(m, 1);
    let vals = pre.map_values(|p: (u32, OctreeBlock)| p.1);
    lemma_distinct_in_order(vals);
    assert forall|j: int| 0 <= j < pre.len() implies pal.contains(#[trigger] pre[j].1) by {
        assert(vals[j] == pre[j].1);
    }
    let bytes = tree_bytes(m, 1, pal);
    assert(bytes.subrange(0, bytes.len() as int) =~= bytes);
    lemma_tree_bytes_parse(m, 1, pal, bytes, 0);
    assert forall|k: u32| m.contains_key(k) implies model::location_code_contains(1, k) by {
        lemmas::lemma_code_inside_root(k);
    }
    assert(subtree(m, 1) =~= m);
}

/// A failed corner fails every longer run of corners.
proof fn lemma_parse_corners_fails(s: Seq<u8>, pos: int, c: u32, i: int, j: int, pal: Seq<OctreeBlock>)
    requires
        0 <= i <= j <= 8,
        parse_corners(s, pos, c, i, pal) is None,
    ensures
        parse_corners(s, pos, c, j, pal) is None,
    decreases j - i,
{
    if i < j {
        lemma_parse_corners_fails(s, pos, c, i, j - 1, pal);
    }
}

/// Decode the octree whose encoding starts at `pos` into `out`.
fn decode_node(
    s: &[u8],
    pos: usize,
    c: LocationCode,
    pal: &Vec<OctreeBlock>,
    out: &mut HashMap<u32, OctreeNode<OctreeBlock>>,
) -> (r: Option<usize>)
    ensures
        match parse_tree(s@, pos as int, c.value(), pal@) {
            Some((m, end)) => r == Some(end as usize) && pos < end <= s@.len() && final(out)@
                == old(out)@.union_prefer_right(m),
            None => r is None,
        },
    decreases 0x1_0000_0000 - c.value(), 9int,
{
    if pos >= s.len() {
        return None;
    }
    let v = c.to_u32();
    let tag = s[pos];
    if tag == 0 {
        proof {
            let rest = s@.subrange(pos + 1, s@.len() as int);
            if varint_parse(rest, 5) is Some {
                lemma_varint_parse_len(rest, 5);
            }
        }
        match read_varint(s, pos + 1) {
            Some((id, next)) => {
                if (id as usize) < pal.len() {
                    let ghost before = out@;
                    out.insert(v, OctreeNode::Present(pal[id as usize]));
                    assert(out@ =~= before.union_prefer_right(
                        map![v => OctreeNode::Present(pal@[id as int])],
                    ));
                    Some(next)
                } else {
                    None
                }
            },
            None => None,
        }
    } else if tag == 1 {
        if v >= 0x2000_0000 {
            return None;
        }
        let ghost start = out@;
        let sub_cubes = SubCube::all_sub_cubes();
        let mut p: usize = pos + 1;
        let mut i: usize = 0;
        assert(start =~= start.union_prefer_right(Map::empty()));
        while i < 8
            invariant
                0 <= i <= 8,
                sub_cubes@.len() == 8,
                forall|j: int| 0 <= j < 8 ==> (#[trigger] sub_cubes@[j]).bits() == j,
                v == c.value(),
                1 <= v < 0x2000_0000,
                pos < s@.len(),
                s@.len() <= usize::MAX,
                s@[pos as int] == 1,
                pos < p <= s@.len(),
                parse_corners(s@, pos + 1, v, i as int, pal@) matches Some((mi, pi)) && pi == p
                    && out@ == start.union_prefer_right(mi),
            decreases 8 - i,
        {
            let corner = c.push_sub_cube(sub_cubes[i]);
            assert(corner.value() == model::child(v, i as int));
            let ghost mi = parse_corners(s@, pos + 1, v, i as int, pal@)->Some_0.0;
            let ghost pi = parse_corners(s@, pos + 1, v, i as int, pal@)->Some_0.1;
            let ghost before = out@;
            match decode_node(s, p, corner, pal, out) {
                Some(next) => {
                    proof {
                        let (m2, p2) = parse_tree(s@, pi, model::child(v, i as int), pal@)->Some_0;
                        assert(pi == p);
                        assert(parse_tree(s@, p as int, corner.value(), pal@) is Some);
                        assert(next == p2);
                        assert(parse_corners(s@, pos + 1, v, i + 1, pal@) == Some(
                            (mi.union_prefer_right(m2), p2),
                        ));
                        assert(out@ =~= start.union_prefer_right(mi.union_prefer_right(m2)));
                    }
                    p = next;
                    i = i + 1;
                },
                None => {
                    proof {
                        lemma_parse_corners_fails(s@, pos + 1, v, i + 1, 8, pal@);
                    }
                    return None;
                },
            }
        }
        let ghost m8 = parse_corners(s@, pos + 1, v, 8, pal@)->Some_0.0;
        out.insert(v, OctreeNode::Subdivided);
        assert(out@ =~= start.union_prefer_right(m8.insert(v, OctreeNode::Subdivided)));
        Some(p)
    } else {
        None
    }
}

} // verus!
