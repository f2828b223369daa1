//! Facts about location codes and octree maps, and the laws of `set_volume`.
use vstd::prelude::*;

use super::location_code;
use super::model;
use super::{BlockInfo, OctreeNode};

verus! {

/// Where the map is closed below `c`, an address strictly inside `c` makes `c` subdivided.
pub proof fn lemma_only_subdivided_has_inside<T>(m: Map<u32, OctreeNode<T>>, c: u32, k: u32)
    requires
        model::closed_below(m, c),
        m.contains_key(k),
        model::strictly_inside(k, c),
    ensures
        m[c] is Subdivided,
    decreases k,
{
    if k / 8 != c {
        lemma_only_subdivided_has_inside(m, c, k / 8);
    }
}

/// Replacing everything inside an address of a covering map by one present value keeps the
/// coverage invariant.
pub proof fn lemma_clear_covers<T>(m: Map<u32, OctreeNode<T>>, v: u32, value: T)
    requires
        model::covers(m),
        m.contains_key(v),
    ensures
        model::covers(model::clear_below(m, v).insert(v, OctreeNode::Present(value))),
{
    let n = model::clear_below(m, v).insert(v, OctreeNode::Present(value));
    assert forall|k: u32| #[trigger] n.contains_key(k) && k != 1 implies n.contains_key(k / 8)
        && n[k / 8] is Subdivided by {
        assert((k / 8) as int == k as int / 8);
        assert(m.contains_key(k / 8));
        if k != v {
            if model::strictly_inside(k / 8, v) || k / 8 == v {
                assert(location_code::contains_or_is(v as int, (k / 8) as int));
                assert(k as int > v as int);
                assert(location_code::contains_or_is(v as int, k as int) == location_code::contains_or_is(v as int, k as int / 8));
                assert(location_code::contains_or_is(v as int, k as int));
            }
        }
    }
    assert forall|k: u32, i: int|
        n.contains_key(k) && n[k] is Subdivided && 0 <= i < 8 implies #[trigger] n.contains_key(
        model::child(k, i),
    ) by {
        assert(model::child(k, i) / 8 == k);
        assert(model::child(k, i) as int / 8 == k as int);
        if model::strictly_inside(model::child(k, i), v) {
            assert(location_code::contains_or_is(v as int, k as int));
        }
    }
}

/// Splitting a present address of a covering map, that has room for one more level, into
/// eight corners keeps the coverage invariant.
pub proof fn lemma_split_node_covers<T>(m: Map<u32, OctreeNode<T>>, c: u32, value: T)
    requires
        model::covers(m),
        m.contains_key(c),
        m[c] is Present,
        c < 0x2000_0000,
    ensures
        model::covers(model::split_node(m, c, value)),
        model::split_node(m, c, value)[c] is Subdivided,
{
    let n = model::split_node(m, c, value);
    assert forall|k: u32| #[trigger] n.contains_key(k) && k != 1 implies n.contains_key(k / 8)
        && n[k / 8] is Subdivided by {
        if k / 8 != c && m.contains_key(k) {
            assert(m.contains_key(k / 8));
            if (k / 8) / 8 == c {
                // the parent would be a corner of `c`, which has none
                assert(m.contains_key((k / 8) / 8));
            }
        }
    }
    assert forall|k: u32| #[trigger] n.contains_key(k) implies location_code::is_code(k as int) by {
        if k / 8 == c && k != c {
            assert(location_code::is_code((k / 8) as int));
        }
    }
    assert forall|k: u32, j: int|
        n.contains_key(k) && n[k] is Subdivided && 0 <= j < 8 implies #[trigger] n.contains_key(
        model::child(k, j),
    ) by {
        assert(model::child(k, j) / 8 == k);
    }
}

/// Splitting every cube from the present `a` down to the parent of `v` keeps the coverage
/// invariant, and leaves `v` present with `a`'s value.
pub proof fn lemma_split_down_covers<T>(m: Map<u32, OctreeNode<T>>, a: u32, v: u32, value: T)
    requires
        model::covers(m),
        m.contains_key(a),
        m[a] == OctreeNode::Present(value),
        model::location_code_contains(a, v),
    ensures
        model::covers(model::split_down(m, a, v, value)),
        model::split_down(m, a, v, value).contains_key(v),
        model::split_down(m, a, v, value)[v] == OctreeNode::Present(value),
    decreases v,
{
    if v > a {
        assert(model::location_code_contains(a, v / 8));
        lemma_split_down_covers(m, a, v / 8, value);
        lemma_split_node_covers(model::split_down(m, a, v / 8, value), v / 8, value);
    }
}

/// Where no present cube strictly contains the code `v`, `v` is an address of a covering map.
pub proof fn lemma_reached<T>(m: Map<u32, OctreeNode<T>>, v: u32)
    requires
        model::covers(m),
        model::is_code_value(v),
        model::present_above(m, v) is None,
    ensures
        m.contains_key(v),
    decreases v,
{
    if v != 1 {
        let p = v / 8;
        assert(v >= 8);
        assert(model::strictly_inside(v, p)) by {
            assert(location_code::contains_or_is(p as int, p as int));
        }
        assert(model::present_above(m, p) is None) by {
            if model::present_above(m, p) is Some {
                let a = choose|a: u32|
                    model::strictly_inside(p, a) && m.contains_key(a) && m[a] is Present;
                assert(location_code::contains_or_is(a as int, v as int));
                assert(model::strictly_inside(v, a));
            }
        }
        lemma_reached(m, p);
        assert(m[p] is Subdivided);
        assert(model::child(p, (v % 8) as int) == v);
    }
}

/// The coverage invariant holds after every `set_volume`, whatever it returns: the map it
/// leaves still covers the whole volume, with no void and no partial subdivision.
pub proof fn lemma_set_volume_keeps_coverage<T, BI: BlockInfo<T>>(
    info: BI,
    m: Map<u32, OctreeNode<T>>,
    v: u32,
    data: T,
)
    requires
        model::covers(m),
        model::is_code_value(v),
    ensures
        model::covers(model::set_volume_outcome(info, m, v, data).1),
{
    match model::present_above(m, v) {
        Some(a) => {
            let e = m[a]->Present_0;
            if !(info.homogeneous(data) && e == data) && info.homogeneous(e) {
                assert(model::strictly_inside(v, a));
                lemma_split_down_covers(m, a, v, e);
                lemma_overwrite_covers(model::split_down(m, a, v, e), v, data);
            }
        },
        None => {
            lemma_reached(m, v);
            lemma_clear_covers(m, v, data);
        },
    }
}

/// Overwriting a present address keeps the coverage invariant.
pub proof fn lemma_overwrite_covers<T>(m: Map<u32, OctreeNode<T>>, v: u32, value: T)
    requires
        model::covers(m),
        m.contains_key(v),
        m[v] is Present,
    ensures
        model::covers(m.insert(v, OctreeNode::Present(value))),
{
}

/// In a covering map, nothing lies inside a present address.
pub proof fn lemma_present_has_nothing_inside<T>(m: Map<u32, OctreeNode<T>>, v: u32)
    requires
        model::covers(m),
        m.contains_key(v),
        m[v] is Present,
    ensures
        model::clear_below(m, v) == m,
{
    assert forall|k: u32| m.contains_key(k) implies !model::strictly_inside(k, v) by {
        if model::strictly_inside(k, v) {
            lemma_only_subdivided_has_inside(m, v, k);
        }
    }
    assert(model::clear_below(m, v) =~= m);
}

/// In a covering map, at most one present cube strictly contains `v`.
pub proof fn lemma_present_above_unique<T>(m: Map<u32, OctreeNode<T>>, v: u32, a: u32)
    requires
        model::covers(m),
        model::strictly_inside(v, a),
        m.contains_key(a),
        m[a] is Present,
    ensures
        model::present_above(m, v) == Some(a),
{
    let b = choose|b: u32| model::strictly_inside(v, b) && m.contains_key(b) && m[b] is Present;
    lemma_nested(a as int, b as int, v as int);
    if a != b {
        if location_code::contains_or_is(a as int, b as int) {
            lemma_above_is_subdivided(m, b, a);
        } else {
            lemma_above_is_subdivided(m, a, b);
        }
    }
}

/// Setting a volume to a homogeneous value that already covers it (at its own size or at a
/// coarser one) succeeds and leaves the map exactly as it was.
pub proof fn lemma_set_volume_same_value_is_noop<T, BI: BlockInfo<T>>(
    info: BI,
    m: Map<u32, OctreeNode<T>>,
    v: u32,
    data: T,
)
    requires
        model::covers(m),
        info.homogeneous(data),
        model::covering_value(m, v) == Some(data),
    ensures
        model::set_volume_outcome(info, m, v, data) == (true, m),
{
    if m.contains_key(v) && m[v] is Present {
        if model::present_above(m, v) is Some {
            let a = model::present_above(m, v)->Some_0;
            lemma_above_is_subdivided(m, v, a);
        }
        lemma_present_has_nothing_inside(m, v);
        assert(m.insert(v, OctreeNode::Present(data)) =~= m);
    }
}

/// Setting a volume strictly inside a present, non-homogeneous cube that holds another value
/// fails and leaves the map exactly as it was.
pub proof fn lemma_set_volume_inside_atomic_fails<T, BI: BlockInfo<T>>(
    info: BI,
    m: Map<u32, OctreeNode<T>>,
    v: u32,
    a: u32,
    data: T,
)
    requires
        model::covers(m),
        model::strictly_inside(v, a),
        m.contains_key(a),
        m[a] is Present,
        !info.homogeneous(m[a]->Present_0),
        m[a]->Present_0 != data,
    ensures
        model::set_volume_outcome(info, m, v, data) == (false, m),
{
    lemma_present_above_unique(m, v, a);
}

/// The depth-first sequence of `c` lists every present address at or inside `c` once, with its
/// value, and nothing else.
pub proof fn lemma_preorder_lists_leaves<T>(m: Map<u32, OctreeNode<T>>, c: u32)
    requires
        model::covers(m),
        m.contains_key(c),
    ensures
        forall|j: int|
            0 <= j < model::preorder(m, c).len() ==> m.contains_key(#[trigger] model::preorder(m, c)[j].0)
                && m[model::preorder(m, c)[j].0] == OctreeNode::Present(model::preorder(m, c)[j].1)
                && model::location_code_contains(c, model::preorder(m, c)[j].0),
        forall|k: u32|
            m.contains_key(k) && m[k] is Present && #[trigger] model::location_code_contains(c, k)
                ==> exists|j: int| 0 <= j < model::preorder(m, c).len() && model::preorder(m, c)[j].0 == k,
        model::codes_of(model::preorder(m, c)).no_duplicates(),
    decreases 0x1_0000_0000 - c, 9int,
{
    let pre = model::preorder(m, c);
    assert(model::location_code_contains(c, c));
    match m[c] {
        OctreeNode::Present(t) => {
            assert forall|k: u32|
                m.contains_key(k) && m[k] is Present && #[trigger] model::location_code_contains(c, k)
                    implies exists|j: int| 0 <= j < pre.len() && pre[j].0 == k by {
                if k != c {
                    lemma_above_is_subdivided(m, k, c);
                }
                assert(pre[0].0 == k);
            }
        },
        OctreeNode::Subdivided => {
            assert(1 <= c < 0x2000_0000) by {
                assert(model::is_code_value(c));
            }
            lemma_corners_list_leaves(m, c, 8);
            assert forall|k: u32|
                m.contains_key(k) && m[k] is Present && #[trigger] model::location_code_contains(c, k)
                    implies exists|j: int| 0 <= j < pre.len() && pre[j].0 == k by {
                assert(k != c);
                lemma_inside_a_corner(c as int, k as int);
                assert(pre == model::corners_preorder(m, c, 8));
                assert(model::strictly_inside(k, c));
                let j = choose|j: int|
                    0 <= j < model::corners_preorder(m, c, 8).len() && model::corners_preorder(m, c, 8)[j].0 == k;
                assert(pre[j].0 == k);
            }
        },
    }
}

/// The depth-first sequences of the first `i` corners of `c`, one after the other, list every
/// present address inside those corners once, and nothing else.
pub proof fn lemma_corners_list_leaves<T>(m: Map<u32, OctreeNode<T>>, c: u32, i: int)
    requires
        model::covers(m),
        m.contains_key(c),
        m[c] is Subdivided,
        1 <= c < 0x2000_0000,
        0 <= i <= 8,
    ensures
        forall|j: int|
            0 <= j < model::corners_preorder(m, c, i).len() ==> m.contains_key(
                #[trigger] model::corners_preorder(m, c, i)[j].0,
            ) && m[model::corners_preorder(m, c, i)[j].0] == OctreeNode::Present(
                model::corners_preorder(m, c, i)[j].1,
            ) && model::strictly_inside(model::corners_preorder(m, c, i)[j].0, c) && model::corner_of(
                c as int,
                model::corners_preorder(m, c, i)[j].0 as int,
            ) < i,
        forall|k: u32|
            m.contains_key(k) && m[k] is Present && #[trigger] model::strictly_inside(k, c) && model::corner_of(
                c as int,
                k as int,
            ) < i ==> exists|j: int|
                0 <= j < model::corners_preorder(m, c, i).len() && model::corners_preorder(m, c, i)[j].0 == k,
        model::codes_of(model::corners_preorder(m, c, i)).no_duplicates(),
    decreases 0x1_0000_0000 - c, i,
{
    if i == 0 {
        assert forall|k: u32| #[trigger] model::strictly_inside(k, c) implies model::corner_of(c as int, k as int)
            >= 0 by {
            lemma_inside_a_corner(c as int, k as int);
        }
        assert(model::codes_of(model::corners_preorder(m, c, 0)) =~= Seq::<u32>::empty());
    } else {
        lemma_corners_list_leaves(m, c, i - 1);
        let ci = model::child(c, i - 1);
        assert(m.contains_key(ci));
        assert(ci / 8 == c && ci as int == 8 * c + i - 1);
        lemma_preorder_lists_leaves(m, ci);
        let a = model::corners_preorder(m, c, i - 1);
        let b = model::preorder(m, ci);
        let ab = model::corners_preorder(m, c, i);
        assert(ab == a + b);
        assert(model::location_code_contains(c, ci)) by {
            assert(location_code::contains_or_is(c as int, (ci / 8) as int));
        }
        assert(model::corner_of(c as int, ci as int) == i - 1);
        // Everything that the new corner lists lies in that corner.
        assert forall|j: int| 0 <= j < b.len() implies model::strictly_inside(#[trigger] b[j].0, c)
            && model::corner_of(c as int, b[j].0 as int) == i - 1 by {
            let k = b[j].0;
            lemma_contains_trans(c as int, ci as int, k as int);
            lemma_inside_a_corner(c as int, k as int);
            lemma_corners_disjoint(c as int, model::corner_of(c as int, k as int), i - 1, k as int);
        }
        assert forall|j: int| 0 <= j < ab.len() implies m.contains_key(#[trigger] ab[j].0)
            && m[ab[j].0] == OctreeNode::Present(ab[j].1) && model::strictly_inside(ab[j].0, c)
            && model::corner_of(c as int, ab[j].0 as int) < i by {
            if j < a.len() {
                assert(ab[j] == a[j]);
            } else {
                assert(ab[j] == b[j - a.len()]);
            }
        }
        assert forall|k: u32|
            m.contains_key(k) && m[k] is Present && #[trigger] model::strictly_inside(k, c) && model::corner_of(
                c as int,
                k as int,
            ) < i implies exists|j: int| 0 <= j < ab.len() && ab[j].0 == k by {
            if model::corner_of(c as int, k as int) < i - 1 {
                let j = choose|j: int| 0 <= j < a.len() && a[j].0 == k;
                assert(ab[j] == a[j]);
            } else {
                lemma_inside_a_corner(c as int, k as int);
                assert(model::location_code_contains(ci, k));
                let j = choose|j: int| 0 <= j < b.len() && b[j].0 == k;
                assert(ab[a.len() + j] == b[j]);
            }
        }
        let ca = model::codes_of(a);
        let cb = model::codes_of(b);
        assert(model::codes_of(ab) =~= ca + cb);
        assert forall|x: int, y: int| 0 <= x < y < model::codes_of(ab).len() implies model::codes_of(ab)[x]
            != model::codes_of(ab)[y] by {
            if x < a.len() && y >= a.len() {
                assert(model::codes_of(ab)[x] == a[x].0);
                assert(model::codes_of(ab)[y] == b[y - a.len()].0);
            } else if x < a.len() {
                assert(model::codes_of(ab)[x] == ca[x] && model::codes_of(ab)[y] == ca[y]);
            } else {
                assert(model::codes_of(ab)[x] == cb[x - a.len()] && model::codes_of(ab)[y] == cb[y - a.len()]);
            }
        }
    }
}

/// In a covering map, every cube that strictly contains an address of the map is subdivided.
pub proof fn lemma_above_is_subdivided<T>(m: Map<u32, OctreeNode<T>>, k: u32, a: u32)
    requires
        model::covers(m),
        m.contains_key(k),
        model::strictly_inside(k, a),
    ensures
        m.contains_key(a),
        m[a] is Subdivided,
    decreases k,
{
    assert(location_code::contains_or_is(a as int, 0) == false);
    assert(k != 1);
    assert(m.contains_key(k / 8));
    if k / 8 != a {
        lemma_above_is_subdivided(m, k / 8, a);
    }
}

/// Whatever lies inside the root is a well-formed code.
pub proof fn lemma_inside_root_is_code(k: int)
    requires
        location_code::contains_or_is(1, k),
    ensures
        location_code::is_code(k),
    decreases k,
{
    if k != 1 {
        lemma_inside_root_is_code(k / 8);
    }
}

/// Every well-formed code lies inside the root.
pub proof fn lemma_code_inside_root(k: u32)
    requires
        model::is_code_value(k),
    ensures
        model::location_code_contains(1, k),
{
    lemma_path(k as int);
    assert(location_code::path_to(k as int)[0] == 1);
}

/// Two cubes that both contain `k` are nested.
pub proof fn lemma_nested(x: int, y: int, k: int)
    requires
        location_code::contains_or_is(x, k),
        location_code::contains_or_is(y, k),
    ensures
        location_code::contains_or_is(x, y) || location_code::contains_or_is(y, x),
    decreases k,
{
    if k != x && k != y {
        lemma_nested(x, y, k / 8);
    }
}

/// Whatever lies strictly inside `c` lies inside the corner `model::corner_of(c, k)`.
pub proof fn lemma_inside_a_corner(c: int, k: int)
    requires
        c >= 1,
        location_code::contains_or_is(c, k),
        k != c,
    ensures
        0 <= model::corner_of(c, k) < 8,
        location_code::contains_or_is(8 * c + model::corner_of(c, k), k),
    decreases k,
{
    if k / 8 != c {
        lemma_inside_a_corner(c, k / 8);
    }
}

/// Containment is transitive.
pub proof fn lemma_contains_trans(a: int, b: int, k: int)
    requires
        location_code::contains_or_is(a, b),
        location_code::contains_or_is(b, k),
    ensures
        location_code::contains_or_is(a, k),
    decreases k,
{
    if k != b {
        lemma_contains_trans(a, b, k / 8);
    }
}

/// No code lies inside two different corners of one cube.
pub proof fn lemma_corners_disjoint(c: int, i: int, j: int, k: int)
    requires
        c >= 1,
        0 <= i < 8,
        0 <= j < 8,
        location_code::contains_or_is(8 * c + i, k),
        location_code::contains_or_is(8 * c + j, k),
    ensures
        i == j,
{
    lemma_nested(8 * c + i, 8 * c + j, k);
    if i != j {
        if location_code::contains_or_is(8 * c + i, 8 * c + j) {
            assert(location_code::contains_or_is(8 * c + i, c));
        } else {
            assert(location_code::contains_or_is(8 * c + j, c));
        }
    }
}

/// Facts about the path from the root to a code.
pub proof fn lemma_path(v: int)
    requires
        location_code::is_code(v),
    ensures
        location_code::path_to(v).len() >= 1,
        location_code::path_to(v)[0] == 1,
        location_code::path_to(v).last() == v,
        forall|j: int| 0 <= j < location_code::path_to(v).len() - 1 ==> (#[trigger] location_code::path_to(v)[j + 1]) / 8
            == location_code::path_to(v)[j],
        forall|j: int|
            0 <= j < location_code::path_to(v).len() ==> location_code::is_code(#[trigger] location_code::path_to(v)[j]) && location_code::contains_or_is(
                location_code::path_to(v)[j],
                v,
            ) && 1 <= location_code::path_to(v)[j] <= v,
    decreases v,
{
    if v > 1 {
        lemma_path(v / 8);
        let p = location_code::path_to(v / 8);
        assert(location_code::path_to(v) == p.push(v));
        assert forall|j: int| 0 <= j < location_code::path_to(v).len() implies location_code::is_code(
            #[trigger] location_code::path_to(v)[j],
        ) && location_code::contains_or_is(location_code::path_to(v)[j], v) && 1 <= location_code::path_to(v)[j] <= v by {
            if j < p.len() {
                assert(p[j] <= v / 8);
            }
        }
    }
}

/// Every cube that contains a code lies on its path from the root.
pub proof fn lemma_on_path(a: int, v: int)
    requires
        location_code::is_code(v),
        location_code::contains_or_is(a, v),
    ensures
        location_code::path_to(v).contains(a),
    decreases v,
{
    lemma_path(v);
    if a != v {
        assert(location_code::contains_or_is(a, 0) == false);
        assert(v >= 8);
        lemma_on_path(a, v / 8);
        let j = choose|j: int| 0 <= j < location_code::path_to(v / 8).len() && #[trigger] location_code::path_to(v / 8)[j] == a;
        assert(location_code::path_to(v)[j] == a);
    } else {
        assert(location_code::path_to(v)[location_code::path_to(v).len() - 1] == a);
    }
}

} // verus!
