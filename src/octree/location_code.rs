use vstd::prelude::*;

verus! {

/// Indicates a particular corner in an octree subdivision.
#[derive(Clone, Copy, Debug, PartialEq, Eq, Structural)]
pub enum SubCube {
    LowerSw,
    LowerSe,
    LowerNw,
    LowerNe,
    UpperSw,
    UpperSe,
    UpperNw,
    UpperNe,
}

impl SubCube {
    /// The 3-bit pattern of a sub cube: x in bit 0, z in bit 1, y in bit 2.
    pub open spec fn bits(self) -> u8 {
        match self {
            SubCube::LowerSw => 0,
            SubCube::LowerSe => 1,
            SubCube::LowerNw => 2,
            SubCube::LowerNe => 3,
            SubCube::UpperSw => 4,
            SubCube::UpperSe => 5,
            SubCube::UpperNw => 6,
            SubCube::UpperNe => 7,
        }
    }

    /// Each sub cube has a corresponding bit pattern; this decodes a `SubCube` from its bit
    /// pattern.
    pub(crate) fn from_bits(bits: u8) -> (r: SubCube)
        requires
            bits < 8,
        ensures
            r.bits() == bits,
    {
        match bits {
            0 => SubCube::LowerSw,
            1 => SubCube::LowerSe,
            2 => SubCube::LowerNw,
            3 => SubCube::LowerNe,
            4 => SubCube::UpperSw,
            5 => SubCube::UpperSe,
            6 => SubCube::UpperNw,
            _ => SubCube::UpperNe,
        }
    }

    /// The sub cube on the side given by one bit per axis, or `None` when a bit is above 1.
    pub fn from_xyz(x: u8, y: u8, z: u8) -> (r: Option<SubCube>)
        ensures
            r is None <==> (x > 1 || y > 1 || z > 1),
            r matches Some(s) ==> s.bits() == 4 * y + 2 * z + x,
    {
        if 1 < x || 1 < y || 1 < z {
            None
        } else {
            let code: u8 = 4 * y + 2 * z + x;
            Some(Self::from_bits(code))
        }
    }

    pub(crate) fn to_bits(self) -> (r: u8)
        ensures
            r == self.bits(),
    {
        match self {
            SubCube::LowerSw => 0,
            SubCube::LowerSe => 1,
            SubCube::LowerNw => 2,
            SubCube::LowerNe => 3,
            SubCube::UpperSw => 4,
            SubCube::UpperSe => 5,
            SubCube::UpperNw => 6,
            SubCube::UpperNe => 7,
        }
    }

    /// The sub cube after this one in the canonical order, `None` after the last one.
    pub(crate) fn next_sibling(self) -> (r: Option<SubCube>)
        ensures
            r is None <==> self.bits() == 7,
            r matches Some(s) ==> s.bits() == self.bits() + 1,
    {
        match self {
            SubCube::LowerSw => Some(SubCube::LowerSe),
            SubCube::LowerSe => Some(SubCube::LowerNw),
            SubCube::LowerNw => Some(SubCube::LowerNe),
            SubCube::LowerNe => Some(SubCube::UpperSw),
            SubCube::UpperSw => Some(SubCube::UpperSe),
            SubCube::UpperSe => Some(SubCube::UpperNw),
            SubCube::UpperNw => Some(SubCube::UpperNe),
            SubCube::UpperNe => None,
        }
    }

    /// All eight sub cubes, in the canonical order (by bit pattern): `LowerSw` and then each
    /// next sibling.
    pub fn all_sub_cubes() -> (r: Vec<SubCube>)
        ensures
            r@.len() == 8,
            forall|i: int| 0 <= i < 8 ==> (#[trigger] r@[i]).bits() == i,
    {
        let mut r: Vec<SubCube> = Vec::new();
        let mut next: Option<SubCube> = Some(SubCube::LowerSw);
        while next.is_some()
            invariant
                r@.len() <= 8,
                forall|i: int| 0 <= i < r@.len() ==> (#[trigger] r@[i]).bits() == i,
                next matches Some(s) ==> s.bits() == r@.len(),
                next is None ==> r@.len() == 8,
            decreases 8 - r@.len() + if next is Some { 1int } else { 0int },
        {
            let current = next.unwrap();
            r.push(current);
            next = current.next_sibling();
        }
        r
    }
}

/// The path that a location code value describes, from the root down to it: every prefix of
/// its 3-bit groups, shortest first.
pub open spec fn path_to(v: int) -> Seq<int>
    decreases v,
{
    if v <= 1 {
        seq![1]
    } else {
        path_to(v / 8).push(v)
    }
}

/// `v` is a leading 1 bit followed by whole 3-bit groups.
pub open spec fn is_code(v: int) -> bool
    decreases v,
{
    if v < 8 {
        v == 1
    } else {
        is_code(v / 8)
    }
}

/// `a` is `c` or one of the cubes that contain `c`.
pub open spec fn contains_or_is(a: int, c: int) -> bool
    decreases c,
{
    if c < 1 || c < a {
        false
    } else if c == a {
        true
    } else {
        contains_or_is(a, c / 8)
    }
}

/// A cube within an octree: a leading 1 bit followed by one 3-bit group per level, the
/// shallowest level in the most significant group.
#[derive(Clone, Copy, Debug, PartialEq, Eq, Hash, Structural)]
pub struct LocationCode(u32);

impl LocationCode {
    /// The code of the whole volume: the sentinel bit alone.
    pub fn root() -> (r: LocationCode)
        ensures
            r.value() == 1,
    {
        LocationCode(1)
    }

    #[verifier::type_invariant]
    spec fn has_sentinel(self) -> bool {
        is_code(self.0 as int)
    }

    /// The integer that encodes this code.
    pub closed spec fn value(self) -> u32 {
        self.0
    }

    /// The integer that encodes this code; it always holds the sentinel bit.
    pub(crate) fn to_u32(self) -> (r: u32)
        ensures
            r == self.value(),
            is_code(r as int),
    {
        proof { use_type_invariant(self); }
        self.0
    }

    /// The code that the integer `v` encodes.
    pub(crate) fn from_u32(v: u32) -> (r: LocationCode)
        requires
            is_code(v as int),
        ensures
            r.value() == v,
    {
        LocationCode(v)
    }

    /// The code of the cube that contains this one, and which of its corners this one is;
    /// `None` at the root.
    pub fn sub_cube(self) -> (r: Option<(LocationCode, SubCube)>)
        ensures
            r is None <==> self.value() == 1,
            r matches Some((parent, s)) ==> parent.value() == self.value() / 8 && s.bits()
                == self.value() % 8,
    {
        proof { use_type_invariant(self); }
        if self.0 == 1 {
            None
        } else {
            let v = self.0;
            assert(v & 7 == v % 8 && v >> 3u32 == v / 8) by (bit_vector);
            let sub_cube = SubCube::from_bits((v & 7) as u8);
            let parent = LocationCode(v >> 3);
            Some((parent, sub_cube))
        }
    }

    /// The code of the sub cube `sub_cube_code` of this cube. There must be room for one more
    /// level: the three most significant bits are zero.
    pub fn push_sub_cube(self, sub_cube_code: SubCube) -> (r: LocationCode)
        requires
            self.value() < 0x2000_0000,
        ensures
            r.value() == 8 * self.value() + sub_cube_code.bits(),
    {
        proof { use_type_invariant(self); }
        let v = self.0;
        let b = sub_cube_code.to_bits() as u32;
        assert((v << 3u32) | b == 8 * v + b) by (bit_vector)
            requires
                v < 0x2000_0000u32,
                b < 8u32,
        ;
        LocationCode((v << 3) | b)
    }

    /// The codes from `ROOT` down to this one, inclusive: `ROOT` first, this code last.
    pub fn from_root_to_here(self) -> (r: Vec<LocationCode>)
        ensures
            r@.map_values(|c: LocationCode| c.value() as int) == path_to(self.value() as int),
        decreases self.value(),
    {
        proof { use_type_invariant(self); }
        match self.sub_cube() {
            None => {
                let r = vec![self];
                assert(r@.map_values(|c: LocationCode| c.value() as int) =~= seq![1int]);
                r
            },
            Some((parent, _)) => {
                let mut r = parent.from_root_to_here();
                let ghost before = r@;
                r.push(self);
                assert(r@.map_values(|c: LocationCode| c.value() as int) =~= before.map_values(
                    |c: LocationCode| c.value() as int,
                ).push(self.value() as int));
                r
            },
        }
    }

    /// The codes from `ROOT` down to the cube just above this one: those of every cube that
    /// contains this one, outermost first. Empty at `ROOT`.
    pub fn from_root_to_just_above_here(self) -> (r: Vec<LocationCode>)
        ensures
            self.value() == 1 ==> r@.len() == 0,
            self.value() != 1 ==> r@.map_values(|c: LocationCode| c.value() as int) == path_to(
                self.value() as int / 8,
            ),
    {
        match self.containing_cube() {
            Some(cc) => cc.from_root_to_here(),
            None => Vec::new(),
        }
    }

    /// The code of the cube that contains this one; `None` at the root.
    pub fn containing_cube(self) -> (r: Option<LocationCode>)
        ensures
            r is None <==> self.value() == 1,
            r matches Some(parent) ==> parent.value() == self.value() / 8,
    {
        match self.sub_cube() {
            Some((parent, _)) => Some(parent),
            None => None,
        }
    }
}

} // verus!
