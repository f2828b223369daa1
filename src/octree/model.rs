//! The mathematical model of block octrees: maps from location code values to nodes, the
//! coverage invariant, and what each operation makes of a map.
use vstd::prelude::*;

use super::location_code;
use super::{BlockInfo, OctreeNode};

verus! {

/// The code of corner `i` of the cube `c`.
pub open spec fn child(c: u32, i: int) -> u32 {
    (8 * c + i) as u32
}

/// `k` is the cube `c` or lies inside it.
pub open spec fn location_code_contains(c: u32, k: u32) -> bool {
    location_code::contains_or_is(c as int, k as int)
}

/// `k` is a leading 1 bit followed by whole 3-bit groups.
pub open spec fn is_code_value(k: u32) -> bool {
    location_code::is_code(k as int)
}

/// `k` lies inside the cube `c` and is not `c` itself.
pub open spec fn strictly_inside(k: u32, c: u32) -> bool {
    k != c && location_code::contains_or_is(c as int, k as int)
}

/// The coverage invariant of an octree map: the root is there; every other address is a corner
/// of a subdivided address; every subdivided address has all eight corners (and room for
/// them). So a present address has no corners in the map, and the present addresses tile the
/// whole volume.
pub open spec fn covers<T>(m: Map<u32, OctreeNode<T>>) -> bool {
    &&& m.contains_key(1)
    &&& forall|k: u32| #[trigger] m.contains_key(k) ==> location_code::is_code(k as int)
    &&& forall|k: u32| #[trigger]
        m.contains_key(k) && k != 1 ==> m.contains_key(k / 8) && m[k / 8] is Subdivided
    &&& forall|k: u32| #[trigger]
        m.contains_key(k) && m[k] is Subdivided ==> k < 0x2000_0000
    &&& forall|k: u32, i: int|
        m.contains_key(k) && m[k] is Subdivided && 0 <= i < 8 ==> #[trigger] m.contains_key(
            child(k, i),
        )
}

/// `m` where the present cube `c` has been split into eight corners that hold `value`.
pub open spec fn split_node<T>(m: Map<u32, OctreeNode<T>>, c: u32, value: T) -> Map<
    u32,
    OctreeNode<T>,
> {
    Map::new(
        |k: u32| m.contains_key(k) || k / 8 == c,
        |k: u32|
            if k == c {
                OctreeNode::Subdivided
            } else if k / 8 == c {
                OctreeNode::Present(value)
            } else {
                m[k]
            },
    )
}

/// `m` where every cube from `a` down to the parent of `c` has been split, each into eight
/// corners that hold `value`: `c` then holds `value`.
pub open spec fn split_down<T>(m: Map<u32, OctreeNode<T>>, a: u32, c: u32, value: T) -> Map<
    u32,
    OctreeNode<T>,
>
    decreases c,
{
    if c <= a {
        m
    } else {
        split_node(split_down(m, a, c / 8, value), c / 8, value)
    }
}

/// `m` without anything strictly inside the cube `c`.
pub open spec fn clear_below<T>(m: Map<u32, OctreeNode<T>>, c: u32) -> Map<u32, OctreeNode<T>> {
    m.remove_keys(Set::new(|k: u32| strictly_inside(k, c)))
}

/// Below `c`, every subdivided address of `m` has room for and holds its eight corners.
pub open spec fn closed_below<T>(m: Map<u32, OctreeNode<T>>, c: u32) -> bool {
    &&& forall|k: u32| #[trigger]
        m.contains_key(k) && location_code::contains_or_is(c as int, k as int) && m[k] is Subdivided ==> k
            < 0x2000_0000
    &&& forall|k: u32, i: int|
        m.contains_key(k) && location_code::contains_or_is(c as int, k as int) && m[k] is Subdivided && 0 <= i
            < 8 ==> #[trigger] m.contains_key(child(k, i))
    &&& forall|k: u32| #[trigger]
        m.contains_key(k) && strictly_inside(k, c) ==> m.contains_key(k / 8) && m[k / 8] is Subdivided
}

/// What `set_volume(v, data)` returns and leaves, on a tree with the map `m` and the
/// homogeneity policy `info`:
/// - where a present cube `a` strictly contains `v` and holds `e`: if `data` is homogeneous
///   and equals `e`, `true` and no change; otherwise, if `e` is not homogeneous, `false` and no
///   change; otherwise `true`, and every cube from `a` down to the parent of `v` is split into
///   eight corners that hold `e`, and then `v` holds `data`;
/// - otherwise `v` is an address of the map: `true`, everything inside `v` is removed and `v`
///   holds `data`.
pub open spec fn set_volume_outcome<T, BI: BlockInfo<T>>(
    info: BI,
    m: Map<u32, OctreeNode<T>>,
    v: u32,
    data: T,
) -> (bool, Map<u32, OctreeNode<T>>) {
    match present_above(m, v) {
        Some(a) => {
            let e = m[a]->Present_0;
            if info.homogeneous(data) && e == data {
                (true, m)
            } else if !info.homogeneous(e) {
                (false, m)
            } else {
                (true, split_down(m, a, v, e).insert(v, OctreeNode::Present(data)))
            }
        },
        None => (true, clear_below(m, v).insert(v, OctreeNode::Present(data))),
    }
}

/// The present addresses of `m` at or inside `c`, with their values, depth first: a present
/// address stands for itself, a subdivided one for its corners in the canonical order.
pub open spec fn preorder<T>(m: Map<u32, OctreeNode<T>>, c: u32) -> Seq<(u32, T)>
    decreases 0x1_0000_0000 - c, 9int,
{
    if !m.contains_key(c) {
        seq![]
    } else {
        match m[c] {
            OctreeNode::Present(t) => seq![(c, t)],
            OctreeNode::Subdivided => if 1 <= c < 0x2000_0000 {
                corners_preorder(m, c, 8)
            } else {
                seq![]
            },
        }
    }
}

/// The depth-first sequences of the first `i` corners of `c`, one after the other.
pub open spec fn corners_preorder<T>(m: Map<u32, OctreeNode<T>>, c: u32, i: int) -> Seq<(u32, T)>
    decreases 0x1_0000_0000 - c, i,
{
    if i <= 0 || i > 8 || c < 1 || c >= 0x2000_0000 {
        seq![]
    } else {
        corners_preorder(m, c, i - 1) + preorder(m, child(c, i - 1))
    }
}

/// The value that covers the cube `v`: the value of `v` itself where `v` is present, else
/// that of the present cube that strictly contains it.
pub open spec fn covering_value<T>(m: Map<u32, OctreeNode<T>>, v: u32) -> Option<T> {
    if m.contains_key(v) && m[v] is Present {
        Some(m[v]->Present_0)
    } else {
        match present_above(m, v) {
            Some(a) => Some(m[a]->Present_0),
            None => None,
        }
    }
}

/// The codes of a depth-first sequence.
pub open spec fn codes_of<T>(s: Seq<(u32, T)>) -> Seq<u32> {
    s.map_values(|p: (u32, T)| p.0)
}

/// The present cube that strictly contains `c`, if there is one.
pub open spec fn present_above<T>(m: Map<u32, OctreeNode<T>>, c: u32) -> Option<u32> {
    if exists|a: u32| strictly_inside(c, a) && m.contains_key(a) && m[a] is Present {
        Some(choose|a: u32| strictly_inside(c, a) && m.contains_key(a) && m[a] is Present)
    } else {
        None
    }
}

/// Which corner of `c` holds `k`, for `k` strictly inside `c`.
pub open spec fn corner_of(c: int, k: int) -> int
    decreases k,
{
    if k <= c || k < 1 {
        0
    } else if k / 8 == c {
        k % 8
    } else {
        corner_of(c, k / 8)
    }
}

} // verus!
