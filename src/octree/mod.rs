use std::collections::HashMap;

use vstd::prelude::*;
use vstd::std_specs::cmp::PartialEqSpec;
use vstd::std_specs::iter::IteratorSpec;

pub mod lemmas;
mod location_code;
pub mod model;

pub use location_code::{LocationCode, SubCube};

verus! {

broadcast use vstd::std_specs::hash::group_hash_axioms;

/// A node in a block octree. Either subdivided into 8, or present with the block data.
#[derive(Clone, Copy, Debug)]
pub enum OctreeNode<T> {
    /// This node is present; the given value is there.
    Present(T),
    /// This node in the octree is subdivided into smaller nodes.
    Subdivided,
}

/// A struct containing information about blocks in the octree. It can either derive this info
/// from the block itself, or from some sort of list of definitions, e.g., if many blocks share
/// the same info.
pub trait BlockInfo<T> {
    /// Whether `block` may be merged into a larger volume, or split into smaller ones.
    spec fn homogeneous(&self, block: T) -> bool;

    /// Does this block (/material) allow itself to be free joined/split by the octree?
    ///
    /// For example: "stone" is the same, and it doesn't matter if an octree joins or splits it.
    /// However, some blocks are complex things (e.g., a machine block) and shouldn't be
    /// joined/split by the tree.
    fn is_homogeneous(&self, block: &T) -> (r: bool)
        ensures
            r == self.homogeneous(*block),
    ;
}

/// An octree containing blocks.
///
/// This octree always has some `T` occupying the entire volume. Setting a volume might cause `T`
/// to get subdivided, so `T: Copy`. Setting a volume might also cause volumes to merge (if the
/// two volumes are the "same" block). `BI` tells the octree when it can and cannot merge or
/// split volumes.
#[derive(Clone, Debug)]
pub struct BlockOctree<T, BI> {
    octree: HashMap<u32, OctreeNode<T>>,
    block_info: BI,
}

impl<T, BI> View for BlockOctree<T, BI> {
    type V = Map<u32, OctreeNode<T>>;

    /// The map from location code values to nodes.
    closed spec fn view(&self) -> Map<u32, OctreeNode<T>> {
        self.octree@
    }
}

impl<T, BI> BlockOctree<T, BI> {
    /// The homogeneity policy of the tree.
    pub closed spec fn info(&self) -> BI {
        self.block_info
    }

    /// The map of the tree satisfies the coverage invariant.
    pub open spec fn wf(&self) -> bool {
        model::covers(self@)
    }
}

impl<T, BI> BlockOctree<T, BI> {
    /// The tree with the map `octree`, which satisfies the coverage invariant.
    pub(crate) fn from_map(octree: HashMap<u32, OctreeNode<T>>, block_info: BI) -> (r:
        BlockOctree<T, BI>)
        requires
            model::covers(octree@),
        ensures
            r.wf(),
            r@ == octree@,
            r.info() == block_info,
    {
        BlockOctree { octree, block_info }
    }
}

impl<T: Default, BI: BlockInfo<T>> BlockOctree<T, BI> {
    /// Create a new `BlockOctree`, with the volume filled with `T::default()`.
    pub fn new(block_info: BI) -> (r: BlockOctree<T, BI>)
        ensures
            r.wf(),
            exists|d: T|
                call_ensures(T::default, (), d) && r@ == map![1u32 => OctreeNode::Present(d)],
            r.info() == block_info,
    {
        let d = T::default();
        Self::with_block(block_info, d)
    }
}

impl<T, BI: BlockInfo<T>> BlockOctree<T, BI> {
    /// Create a new `BlockOctree`, with the volume filled with `root_block`.
    pub fn with_block(block_info: BI, root_block: T) -> (r: BlockOctree<T, BI>)
        ensures
            r.wf(),
            r@ == map![1u32 => OctreeNode::Present(root_block)],
            r.info() == block_info,
    {
        let mut octree = HashMap::new();
        octree.insert(1, OctreeNode::Present(root_block));
        let r = BlockOctree { octree, block_info };
        assert(r@ =~= map![1u32 => OctreeNode::Present(root_block)]);
        assert(location_code::is_code(1));
        r
    }
}

impl<T: Copy + Eq, BI: BlockInfo<T>> BlockOctree<T, BI> {
    /// The node at `volume`, if the map holds that address.
    pub fn get_volume(&self, volume: LocationCode) -> (r: Option<&OctreeNode<T>>)
        ensures
            r matches Some(n) ==> self@.contains_key(volume.value()) && *n == self@[volume.value()],
            r is None ==> !self@.contains_key(volume.value()),
    {
        self.octree.get(&volume.to_u32())
    }

    /// The contents of the tree, in no particular order: each present address once, with its
    /// value.
    pub fn iter(&self) -> (r: Vec<(LocationCode, T)>)
        requires
            self.wf(),
        ensures
            forall|i: int|
                0 <= i < r@.len() ==> self@.contains_key(#[trigger] r@[i].0.value())
                    && self@[r@[i].0.value()] == OctreeNode::Present(r@[i].1),
            forall|k: u32, t: T|
                self@.contains_key(k) && self@[k] == OctreeNode::Present(t) ==> exists|i: int|
                    0 <= i < r@.len() && (#[trigger] r@[i]).0.value() == k && r@[i].1 == t,
            forall|i: int, j: int|
                0 <= i < r@.len() && 0 <= j < r@.len() && i != j ==> (#[trigger] r@[i]).0.value()
                    != (#[trigger] r@[j]).0.value(),
    {
        let ghost m = self@;
        let entries = self.octree.iter();
        let ghost s = entries.remaining();
        assert(s.no_duplicates());
        assert(forall|i: int|
            #![trigger s[i]]
            0 <= i < s.len() ==> m.contains_key(*s[i].0) && m[*s[i].0] == *s[i].1);
        assert(forall|k: u32| #[trigger] m.contains_key(k) ==> s.contains((&k, &m[k])));
        let mut out: Vec<(LocationCode, T)> = Vec::new();
        let ghost mut src: Seq<int> = seq![];
        for entry in it: entries
            invariant
                it.seq() == s,
                m == self@,
                self.wf(),
                s.no_duplicates(),
                forall|i: int|
                    #![trigger s[i]]
                    0 <= i < s.len() ==> m.contains_key(*s[i].0) && m[*s[i].0] == *s[i].1,
                src.len() == out@.len(),
                forall|i: int|
                    #![trigger src[i]]
                    0 <= i < src.len() ==> 0 <= src[i] < it.index(),
                forall|i: int|
                    #![trigger src[i]]
                    0 <= i < src.len() ==> 0 <= src[i] < s.len() && *s[src[i]].0
                        == out@[i].0.value() && m.contains_key(out@[i].0.value())
                        && m[out@[i].0.value()] == OctreeNode::Present(out@[i].1),
                forall|i: int, j: int| 0 <= i < j < src.len() ==> src[i] < src[j],
                forall|j: int|
                    #![trigger s[j]]
                    0 <= j < it.index() && *s[j].1 is Present ==> exists|i: int|
                        0 <= i < src.len() && src[i] == j,
                it.index() <= s.len(),
        {
            let (k, node) = entry;
            assert(entry == s[it.index()]);
            match node {
                OctreeNode::Present(t) => {
                    let ghost old_src = src;
                    proof {
                        src = src.push(it.index());
                    }
                    out.push((LocationCode::from_u32(*k), *t));
                    proof {
                        assert forall|j: int|
                            0 <= j <= it.index() && #[trigger] s[j].1 is Present implies exists|i: int|
                            0 <= i < src.len() && src[i] == j by {
                            if j < it.index() {
                                let i0 = choose|i: int| 0 <= i < old_src.len() && old_src[i] == j;
                                assert(src[i0] == j);
                            } else {
                                assert(src[src.len() - 1] == j);
                            }
                        }
                    }
                },
                OctreeNode::Subdivided => {},
            }
        }
        proof {
            assert forall|i: int| 0 <= i < out@.len() implies m.contains_key(
                #[trigger] out@[i].0.value(),
            ) && m[out@[i].0.value()] == OctreeNode::Present(out@[i].1) by {
                let x = src[i];
                assert(0 <= x < s.len());
                assert(*s[x].0 == out@[i].0.value());
            }
            assert forall|k: u32, t: T|
                m.contains_key(k) && m[k] == OctreeNode::Present(t) implies exists|i: int|
                0 <= i < out@.len() && (#[trigger] out@[i]).0.value() == k && out@[i].1 == t by {
                assert(s.contains((&k, &m[k])));
                let j = choose|j: int| 0 <= j < s.len() && s[j] == (&k, &m[k]);
                let i = choose|i: int| 0 <= i < src.len() && src[i] == j;
                assert(out@[i].0.value() == k);
            }
            assert forall|i: int, j: int|
                0 <= i < out@.len() && 0 <= j < out@.len() && i != j implies (#[trigger] out@[i]).0.value()
                != (#[trigger] out@[j]).0.value() by {
                if out@[i].0.value() == out@[j].0.value() {
                    assert(s[src[i]] == s[src[j]]);
                }
            }
        }
        out
    }

    /// Iterate through the contents of the tree, depth first: every present address with its
    /// value, the corners of each cube in the canonical order.
    pub fn depth_first_blocks(&self) -> (r: Vec<(LocationCode, T)>)
        requires
            self.wf(),
        ensures
            r@.map_values(|p: (LocationCode, T)| (p.0.value(), p.1)) == model::preorder(self@, 1),
            forall|i: int|
                0 <= i < r@.len() ==> self@.contains_key(#[trigger] r@[i].0.value())
                    && self@[r@[i].0.value()] == OctreeNode::Present(r@[i].1),
            forall|k: u32, t: T|
                self@.contains_key(k) && self@[k] == OctreeNode::Present(t) ==> exists|i: int|
                    0 <= i < r@.len() && (#[trigger] r@[i]).0.value() == k && r@[i].1 == t,
            forall|i: int, j: int|
                0 <= i < r@.len() && 0 <= j < r@.len() && i != j ==> (#[trigger] r@[i]).0.value()
                    != (#[trigger] r@[j]).0.value(),
    {
        let mut out: Vec<(LocationCode, T)> = Vec::new();
        self.push_depth_first(LocationCode::root(), &mut out);
        let ghost m = self@;
        let ghost pre = model::preorder(m, 1);
        let ghost mapped = out@.map_values(|p: (LocationCode, T)| (p.0.value(), p.1));
        assert(mapped =~= seq![] + pre);
        proof {
            lemmas::lemma_preorder_lists_leaves(m, 1);
            assert(mapped.len() == out@.len());
            assert forall|i: int| 0 <= i < out@.len() implies m.contains_key(
                #[trigger] out@[i].0.value(),
            ) && m[out@[i].0.value()] == OctreeNode::Present(out@[i].1) by {
                assert(mapped[i] == pre[i]);
                assert(m.contains_key(pre[i].0) && m[pre[i].0] == OctreeNode::Present(pre[i].1));
            }
            assert forall|k: u32, t: T| m.contains_key(k) && m[k] == OctreeNode::Present(t) implies exists|i: int|
                0 <= i < out@.len() && (#[trigger] out@[i]).0.value() == k && out@[i].1 == t by {
                lemmas::lemma_code_inside_root(k);
                let j = choose|j: int| 0 <= j < pre.len() && pre[j].0 == k;
                assert(mapped[j] == pre[j]);
            }
            assert forall|i: int, j: int|
                0 <= i < out@.len() && 0 <= j < out@.len() && i != j implies (#[trigger] out@[i]).0.value()
                != (#[trigger] out@[j]).0.value() by {
                assert(mapped[i] == pre[i] && mapped[j] == pre[j]);
                assert(model::codes_of(pre)[i] == pre[i].0 && model::codes_of(pre)[j] == pre[j].0);
            }
        }
        out
    }

    /// Append the present addresses at or inside `c` to `out`, depth first.
    fn push_depth_first(&self, c: LocationCode, out: &mut Vec<(LocationCode, T)>)
        requires
            self.wf(),
            self@.contains_key(c.value()),
        ensures
            final(out)@.map_values(|p: (LocationCode, T)| (p.0.value(), p.1)) == old(out)@.map_values(
                |p: (LocationCode, T)| (p.0.value(), p.1),
            ) + model::preorder(self@, c.value()),
        decreases 0x1_0000_0000 - c.value(), 9int,
    {
        let ghost m = self@;
        let v = c.to_u32();
        let node = *self.octree.get(&v).unwrap();
        match node {
            OctreeNode::Present(t) => {
                let ghost before = out@;
                out.push((c, t));
                assert(out@.map_values(|p: (LocationCode, T)| (p.0.value(), p.1)) =~= before.map_values(
                    |p: (LocationCode, T)| (p.0.value(), p.1),
                ) + model::preorder(m, v));
            },
            OctreeNode::Subdivided => {
                let ghost start = out@.map_values(|p: (LocationCode, T)| (p.0.value(), p.1));
                let sub_cubes = SubCube::all_sub_cubes();
                let mut i: usize = 0;
                assert(start =~= start + model::corners_preorder(m, v, 0));
                while i < 8
                    invariant
                        0 <= i <= 8,
                        sub_cubes@.len() == 8,
                        forall|j: int| 0 <= j < 8 ==> (#[trigger] sub_cubes@[j]).bits() == j,
                        self.wf(),
                        m == self@,
                        v == c.value(),
                        m.contains_key(v),
                        m[v] is Subdivided,
                        1 <= v < 0x2000_0000,
                        out@.map_values(|p: (LocationCode, T)| (p.0.value(), p.1)) == start
                            + model::corners_preorder(m, v, i as int),
                    decreases 8 - i,
                {
                    let corner = c.push_sub_cube(sub_cubes[i]);
                    assert(m.contains_key(model::child(v, i as int)));
                    self.push_depth_first(corner, out);
                    i = i + 1;
                    assert(start + model::corners_preorder(m, v, i as int) =~= start + model::corners_preorder(
                        m,
                        v,
                        i - 1,
                    ) + model::preorder(m, model::child(v, i - 1)));
                }
                assert(model::preorder(m, v) == model::corners_preorder(m, v, 8));
            },
        }
    }

    /// Set a volume of space inside the tree to the given data.
    ///
    /// If there is already something contained in that space, if it is "homogeneous"
    /// (combinable/splittable) then it is split up (or removed) & the volume is replaced. If the
    /// volume is not homogeneous, then setting the volume fails.
    ///
    /// Returns `true` if the given volume could be set, `false` if it could not. "Set" (`true`)
    /// includes setting a volume to a homogeneous value that is set at a larger volume. (The
    /// sub-volume is instantly merged/consumed.)
    pub fn set_volume(&mut self, volume: LocationCode, data: T) -> (r: bool)
        requires
            old(self).wf(),
            vstd::laws_eq::obeys_concrete_eq::<T>(),
        ensures
            final(self).wf(),
            final(self).info() == old(self).info(),
            (r, final(self)@) == model::set_volume_outcome(old(self).info(), old(self)@, volume.value(), data),
    {
        let ghost m = self@;
        let v = volume.to_u32();
        let ghost full = location_code::path_to(v as int);
        assert(T::obeys_eq_spec() && forall|x: T, y: T| (x.eq_spec(&y) <==> x == y)) by {
            reveal(vstd::laws_eq::obeys_concrete_eq);
        }
        proof {
            lemmas::lemma_path(v as int);
            if v != 1 {
                assert(v >= 8);
                lemmas::lemma_path(v as int / 8);
                assert(full == location_code::path_to(v as int / 8).push(v as int));
            }
        }
        let is_homogeneous = self.block_info.is_homogeneous(&data);
        let path = volume.from_root_to_just_above_here();
        let n = path.len();
        let ghost mut split: Option<u32> = None;
        let ghost mut e: T = data;
        assert(path@.len() == full.len() - 1) by {
            if v != 1 {
                assert(path@.map_values(|c: LocationCode| c.value() as int).len() == path@.len());
            }
        }
        let mut i: usize = 0;
        while i < n
            invariant
                0 <= i <= n,
                n == path@.len(),
                n == full.len() - 1,
                full == location_code::path_to(v as int),
                m == old(self)@,
                full[n as int] == v,
                v == volume.value(),
                location_code::is_code(v as int),
                forall|j: int| 0 <= j < n ==> (#[trigger] path@[j]).value() == full[j],
                forall|j: int| 0 <= j < n ==> full[j] <= v / 8,
                forall|j: int| 0 <= j < full.len() - 1 ==> (#[trigger] full[j + 1]) / 8 == full[j],
                forall|j: int| 0 <= j < full.len() ==> location_code::contains_or_is(#[trigger] full[j], v as int),
                full[0] == 1,
                T::obeys_eq_spec(),
                forall|x: T, y: T| (x.eq_spec(&y) <==> x == y),
                is_homogeneous == old(self).info().homogeneous(data),
                self.wf(),
                self.info() == old(self).info(),
                self@.contains_key(full[i as int] as u32),
                split is None ==> self@ == m,
                split is None ==> forall|j: int|
                    0 <= j < i ==> m.contains_key(#[trigger] full[j] as u32) && m[full[j] as u32] is Subdivided,
                split matches Some(a) ==> {
                    &&& model::present_above(m, v) == Some(a)
                    &&& m[a] == OctreeNode::Present(e)
                    &&& self.info().homogeneous(e)
                    &&& !(is_homogeneous && e == data)
                    &&& location_code::contains_or_is(a as int, full[i as int])
                    &&& self@ == model::split_down(m, a, full[i as int] as u32, e)
                    &&& self@[full[i as int] as u32] == OctreeNode::Present(e)
                },
            decreases n - i,
        {
            let location_code = path[i];
            let ghost x = full[i as int];
            let node = *self.octree.get(&location_code.to_u32()).unwrap();
            match node {
                OctreeNode::Subdivided => {
                    proof {
                        assert(full[i + 1] == 8 * x + full[i + 1] % 8);
                        assert(model::child(x as u32, full[i + 1] % 8) == full[i + 1] as u32);
                    }
                },
                OctreeNode::Present(vd) => {
                    proof {
                        if split is None {
                            assert(model::strictly_inside(v, x as u32));
                            lemmas::lemma_present_above_unique(m, v, x as u32);
                            assert(location_code::contains_or_is(x, x));
                            split = Some(x as u32);
                            e = vd;
                        }
                    }
                    if is_homogeneous && vd == data {
                        return true;
                    } else if self.block_info.is_homogeneous(&vd) {
                        self.subdivide(location_code, vd);
                        proof {
                            let a = split->Some_0;
                            let y = full[i + 1];
                            assert(y / 8 == x);
                            assert(location_code::contains_or_is(a as int, y));
                            assert(model::split_down(m, a, y as u32, e) == model::split_node(
                                model::split_down(m, a, x as u32, e),
                                x as u32,
                                e,
                            ));
                        }
                    } else {
                        return false;
                    }
                },
            }
            i = i + 1;
        }
        proof {
            if split is None {
                if model::present_above(m, v) is Some {
                    let a = model::present_above(m, v)->Some_0;
                    lemmas::lemma_on_path(a as int, v as int);
                    let j = choose|j: int| 0 <= j < full.len() && #[trigger] full[j] == a as int;
                    assert(m.contains_key(full[j] as u32));
                }
            }
        }
        let node = *self.octree.get(&v).unwrap();
        match node {
            // There's a whole subtree of blocks here; clear them out & set the target volume.
            OctreeNode::Subdivided => {
                self.clear_subvolume_and_set(volume, data);
            },
            // There's a block here, but it will be replaced.
            OctreeNode::Present(_) => {
                proof {
                    lemmas::lemma_overwrite_covers(self@, v, data);
                    if split is None {
                        lemmas::lemma_present_has_nothing_inside(m, v);
                    }
                }
                self.octree.insert(v, OctreeNode::Present(data));
            },
        }
        true
    }

    /// Split the present cube `volume` into eight corners that hold `value`.
    fn subdivide(&mut self, volume: LocationCode, value: T)
        requires
            old(self).wf(),
            old(self)@.contains_key(volume.value()),
            old(self)@[volume.value()] is Present,
            volume.value() < 0x2000_0000,
        ensures
            final(self).wf(),
            final(self)@ == model::split_node(old(self)@, volume.value(), value),
            final(self).info() == old(self).info(),
    {
        let ghost m = self@;
        let ghost c = volume.value();
        let sub_cubes = SubCube::all_sub_cubes();
        let mut i: usize = 0;
        while i < 8
            invariant
                0 <= i <= 8,
                sub_cubes@.len() == 8,
                forall|j: int| 0 <= j < 8 ==> (#[trigger] sub_cubes@[j]).bits() == j,
                c == volume.value(),
                c < 0x2000_0000,
                self.info() == old(self).info(),
                self@ == Map::new(
                    |k: u32| m.contains_key(k) || (k / 8 == c && k % 8 < i),
                    |k: u32|
                        if k / 8 == c && k % 8 < i {
                            OctreeNode::Present(value)
                        } else {
                            m[k]
                        },
                ),
            decreases 8 - i,
        {
            let smaller_volume = volume.push_sub_cube(sub_cubes[i]);
            self.octree.insert(smaller_volume.to_u32(), OctreeNode::Present(value));
            i = i + 1;
            assert(self@ =~= Map::new(
                |k: u32| m.contains_key(k) || (k / 8 == c && k % 8 < i),
                |k: u32|
                    if k / 8 == c && k % 8 < i {
                        OctreeNode::Present(value)
                    } else {
                        m[k]
                    },
            ));
        }
        self.octree.insert(volume.to_u32(), OctreeNode::Subdivided);
        assert(self@ =~= model::split_node(m, c, value));
        proof {
            lemmas::lemma_split_node_covers(m, c, value);
        }
    }

    /// Replace the subdivided `volume`, and everything inside it, by one present `data`.
    fn clear_subvolume_and_set(&mut self, volume: LocationCode, data: T)
        requires
            old(self).wf(),
            old(self)@.contains_key(volume.value()),
        ensures
            final(self).wf(),
            final(self)@ == model::clear_below(old(self)@, volume.value()).insert(
                volume.value(),
                OctreeNode::Present(data),
            ),
            final(self).info() == old(self).info(),
    {
        let ghost m = self@;
        self.remove_subtree(volume);
        self.octree.insert(volume.to_u32(), OctreeNode::Present(data));
        proof {
            assert(self@ =~= model::clear_below(m, volume.value()).insert(
                volume.value(),
                OctreeNode::Present(data),
            ));
            lemmas::lemma_clear_covers(m, volume.value(), data);
        }
    }

    /// Remove `volume` and everything inside it.
    fn remove_subtree(&mut self, volume: LocationCode)
        requires
            old(self)@.contains_key(volume.value()),
            model::closed_below(old(self)@, volume.value()),
        ensures
            final(self)@ == old(self)@.remove_keys(
                Set::new(|k: u32| location_code::contains_or_is(volume.value() as int, k as int)),
            ),
            final(self).info() == old(self).info(),
        decreases 0x1_0000_0000 - volume.value(),
    {
        let ghost m = self@;
        let v = volume.to_u32();
        let ghost c = v as int;
        assert(location_code::contains_or_is(c, c));
        let subdivided = match self.octree.get(&v) {
            Some(OctreeNode::Subdivided) => true,
            _ => false,
        };
        if subdivided {
            let sub_cubes = SubCube::all_sub_cubes();
            let mut i: usize = 0;
            assert forall|k: u32| model::strictly_inside(k, v) implies model::corner_of(c, k as int) >= 0 by {
                lemmas::lemma_inside_a_corner(c, k as int);
            }
            assert(self@ =~= m.remove_keys(
                Set::new(|k: u32| model::strictly_inside(k, v) && model::corner_of(c, k as int) < i),
            ));
            while i < 8
                invariant
                    0 <= i <= 8,
                    sub_cubes@.len() == 8,
                    forall|j: int| 0 <= j < 8 ==> (#[trigger] sub_cubes@[j]).bits() == j,
                    v == volume.value(),
                    c == v,
                    c >= 1,
                    v < 0x2000_0000,
                    m.contains_key(v),
                    m[v] is Subdivided,
                    model::closed_below(m, v),
                    self.info() == old(self).info(),
                    self@ == m.remove_keys(
                        Set::new(|k: u32| model::strictly_inside(k, v) && model::corner_of(c, k as int) < i),
                    ),
                decreases 8 - i,
            {
                let corner = volume.push_sub_cube(sub_cubes[i]);
                let ghost ci = corner.value();
                let ghost before = self@;
                proof {
                    assert(ci == model::child(v, i as int));
                    assert(m.contains_key(model::child(v, i as int)));
                    assert(ci / 8 == v);
                    assert(location_code::contains_or_is(c, (ci / 8) as int));
                    assert(location_code::contains_or_is(c, ci as int));
                    assert(model::corner_of(c, ci as int) == i);
                    assert(self@.contains_key(ci));
                    assert forall|k: u32, j: int|
                        self@.contains_key(k) && location_code::contains_or_is(ci as int, k as int)
                            && self@[k] is Subdivided && 0 <= j < 8 implies #[trigger] self@.contains_key(
                        model::child(k, j),
                    ) by {
                        lemmas::lemma_contains_trans(c, ci as int, k as int);
                        let ck = model::child(k, j);
                        assert(ck / 8 == k);
                        assert(location_code::contains_or_is(ci as int, ck as int));
                        lemmas::lemma_contains_trans(c, ci as int, ck as int);
                        assert(m.contains_key(ck));
                        if model::strictly_inside(ck, v) && model::corner_of(c, ck as int) < i {
                            lemmas::lemma_inside_a_corner(c, ck as int);
                            lemmas::lemma_corners_disjoint(c, model::corner_of(c, ck as int), i as int, ck as int);
                        }
                    }
                    assert forall|k: u32| #[trigger]
                        self@.contains_key(k) && location_code::contains_or_is(ci as int, k as int)
                            && self@[k] is Subdivided implies k < 0x2000_0000 by {
                        lemmas::lemma_contains_trans(c, ci as int, k as int);
                    }
                    assert forall|k: u32| #[trigger]
                        self@.contains_key(k) && model::strictly_inside(k, ci) implies self@.contains_key(
                            k / 8,
                        ) && self@[k / 8] is Subdivided by {
                        lemmas::lemma_contains_trans(c, ci as int, k as int);
                        assert(m.contains_key(k / 8));
                        assert(location_code::contains_or_is(ci as int, (k / 8) as int));
                        lemmas::lemma_contains_trans(c, ci as int, (k / 8) as int);
                        if model::strictly_inside(k / 8, v) && model::corner_of(c, (k / 8) as int) < i {
                            lemmas::lemma_inside_a_corner(c, (k / 8) as int);
                            lemmas::lemma_corners_disjoint(
                                c,
                                model::corner_of(c, (k / 8) as int),
                                i as int,
                                (k / 8) as int,
                            );
                        }
                    }
                }
                self.remove_subtree(corner);
                i = i + 1;
                proof {
                    assert forall|k: u32| #[trigger]
                        self@.contains_key(k) <==> m.contains_key(k) && !(model::strictly_inside(k, v)
                            && model::corner_of(c, k as int) < i) by {
                        if location_code::contains_or_is(ci as int, k as int) {
                            lemmas::lemma_contains_trans(c, ci as int, k as int);
                            assert(model::strictly_inside(k, v));
                            lemmas::lemma_inside_a_corner(c, k as int);
                            lemmas::lemma_corners_disjoint(c, model::corner_of(c, k as int), (i - 1) as int, k as int);
                        }
                        if model::strictly_inside(k, v) {
                            lemmas::lemma_inside_a_corner(c, k as int);
                        }
                    }
                    assert(self@ =~= m.remove_keys(
                        Set::new(|k: u32| model::strictly_inside(k, v) && model::corner_of(c, k as int) < i),
                    ));
                }
            }
        }
        self.octree.remove(&v);
        proof {
            assert forall|k: u32| #[trigger]
                self@.contains_key(k) <==> m.contains_key(k) && !location_code::contains_or_is(c, k as int) by {
                if m.contains_key(k) && model::strictly_inside(k, v) {
                    lemmas::lemma_only_subdivided_has_inside(m, v, k);
                    lemmas::lemma_inside_a_corner(c, k as int);
                }
            }
            assert(self@ =~= m.remove_keys(Set::new(|k: u32| location_code::contains_or_is(c, k as int))));
        }
    }
}

} // verus!
