//! Block definitions and the modules ("mods") that declare them. A definition carries the id
//! of its module, and the octree needs of it only whether it is homogeneous.
use vstd::prelude::*;
use vstd::std_specs::iter::IteratorSpec;

verus! {

/// A primitive color.
#[derive(Clone, Copy, Debug, PartialEq, Eq, Structural)]
pub struct Color {
    pub r: u8,
    pub g: u8,
    pub b: u8,
}

/// How a block looks, and whether it may be merged and split.
#[derive(Clone, Debug)]
pub struct BlockDefinition {
    /// Path to a texture for the block.
    texture: String,
    /// A primitive color for the block.
    color: Color,
    /// Whether the block is homogeneous, and nearby blocks can be losslessly merged with it.
    homogeneous: bool,
}

impl BlockDefinition {
    /// The texture path.
    pub closed spec fn texture_view(&self) -> Seq<char> {
        self.texture@
    }

    /// The color.
    pub closed spec fn color_view(&self) -> Color {
        self.color
    }

    /// The homogeneity flag.
    pub closed spec fn homogeneous_view(&self) -> bool {
        self.homogeneous
    }

    /// The definition of a block with the given texture, color and homogeneity.
    pub fn new(texture: String, color: Color, homogeneous: bool) -> (r: BlockDefinition)
        ensures
            r.texture_view() == texture@,
            r.color_view() == color,
            r.homogeneous_view() == homogeneous,
    {
        BlockDefinition { texture, color, homogeneous }
    }

    /// Whether the block may be merged into larger volumes and split into smaller ones.
    pub fn is_homogeneous(&self) -> (r: bool)
        ensures
            r == self.homogeneous_view(),
    {
        self.homogeneous
    }

    /// The texture path.
    pub fn texture(&self) -> (r: &str)
        ensures
            r@ == self.texture_view(),
    {
        self.texture.as_str()
    }

    /// The color.
    pub fn color(&self) -> (r: Color)
        ensures
            r == self.color_view(),
    {
        self.color
    }
}

/// A block definition as a module declares it: its id within the module, and the module's id.
#[derive(Clone, Debug)]
pub struct ModuleBlockDefinition {
    /// The id of the module that declares the block.
    module: String,
    /// The ID for blocks of this definition
    id: String,
    /// The actual block definition:
    def: BlockDefinition,
}

impl ModuleBlockDefinition {
    /// The id of the declaring module.
    pub closed spec fn module_view(&self) -> Seq<char> {
        self.module@
    }

    /// The id of the block within its module.
    pub closed spec fn id_view(&self) -> Seq<char> {
        self.id@
    }

    /// The definition.
    pub closed spec fn definition_view(&self) -> BlockDefinition {
        self.def
    }

    /// The id of the block within its module.
    pub fn id(&self) -> (r: &str)
        ensures
            r@ == self.id_view(),
    {
        self.id.as_str()
    }

    /// The id of the module that declares the block; a registry of modules resolves it.
    pub fn module(&self) -> (r: &str)
        ensures
            r@ == self.module_view(),
    {
        self.module.as_str()
    }

    /// The definition.
    pub fn definition(&self) -> (r: &BlockDefinition)
        ensures
            *r == self.definition_view(),
    {
        &self.def
    }
}

/// A "mod".
///
/// The type is referred to as `Module` and instances as `module`, as `mod` is a reserved keyword
/// in Rust.
#[derive(Debug)]
pub struct Module {
    id: String,
    display_name: String,
    path: String,
    block_defs: Vec<ModuleBlockDefinition>,
}

impl Module {
    /// The module's id.
    pub closed spec fn id_view(&self) -> Seq<char> {
        self.id@
    }

    /// The module's block definitions, in the order in which they were given.
    pub closed spec fn defs(&self) -> Seq<ModuleBlockDefinition> {
        self.block_defs@
    }

    /// Creates a new `Module`, representing a mod, that declares the blocks `block_defs`, each
    /// under its id.
    pub fn new(
        id: String,
        display_name: String,
        path: String,
        block_defs: Vec<(String, BlockDefinition)>,
    ) -> (r: Module)
        ensures
            r.id_view() == id@,
            r.defs().len() == block_defs@.len(),
            forall|i: int|
                0 <= i < r.defs().len() ==> (#[trigger] r.defs()[i]).module_view() == id@
                    && r.defs()[i].id_view() == block_defs@[i].0@ && r.defs()[i].definition_view()
                    == block_defs@[i].1,
    {
        let block_defs = map_block_defs(block_defs, id.as_str());
        Module { id, display_name, path, block_defs }
    }

    /// The definition of the block `id` in this module: the first one with that id.
    pub fn block_by_id(&self, id: &str) -> (r: Option<&ModuleBlockDefinition>)
        ensures
            r is None <==> forall|i: int| 0 <= i < self.defs().len() ==> (#[trigger] self.defs()[i]).id_view() != id@,
            r matches Some(d) ==> exists|i: int|
                0 <= i < self.defs().len() && *d == #[trigger] self.defs()[i] && d.id_view() == id@
                    && forall|j: int| 0 <= j < i ==> (#[trigger] self.defs()[j]).id_view() != id@,
    {
        let key = id.to_owned();
        let mut i: usize = 0;
        while i < self.block_defs.len()
            invariant
                0 <= i <= self.defs().len(),
                key@ == id@,
                forall|j: int| 0 <= j < i ==> (#[trigger] self.defs()[j]).id_view() != id@,
            decreases self.defs().len() - i,
        {
            if self.block_defs[i].id == key {
                return Some(&self.block_defs[i]);
            }
            i = i + 1;
        }
        None
    }

    /// The module's block definitions, in the order in which they were given.
    pub fn blocks(&self) -> (r: &[ModuleBlockDefinition])
        ensures
            r@ == self.defs(),
    {
        self.block_defs.as_slice()
    }

    /// The module's id.
    pub fn id(&self) -> (r: &str)
        ensures
            r@ == self.id_view(),
    {
        self.id.as_str()
    }
}

/// The block definitions that a world knows, each given a small integer id once, when it is
/// registered: the id is the definition's place in the registry. Chunks hold these ids.
#[derive(Debug)]
pub struct BlockRegistry {
    entries: Vec<RegistryEntry>,
}

#[derive(Debug)]
struct RegistryEntry {
    module: String,
    block: String,
    homogeneous: bool,
}

impl View for BlockRegistry {
    type V = Seq<(Seq<char>, Seq<char>, bool)>;

    /// Module id, block id and homogeneity of each registered definition, by id.
    closed spec fn view(&self) -> Seq<(Seq<char>, Seq<char>, bool)> {
        self.entries@.map_values(|e: RegistryEntry| (e.module@, e.block@, e.homogeneous))
    }
}

/// The first place in `v` that holds the definition `block` of the module `module`.
pub open spec fn registry_index(v: Seq<(Seq<char>, Seq<char>, bool)>, module: Seq<char>, block: Seq<
    char,
>) -> Option<int> {
    if exists|i: int| 0 <= i < v.len() && v[i].0 == module && v[i].1 == block {
        Some(
            choose|i: int|
                0 <= i < v.len() && v[i].0 == module && v[i].1 == block && forall|j: int|
                    0 <= j < i ==> !(v[j].0 == module && v[j].1 == block),
        )
    } else {
        None
    }
}

impl BlockRegistry {
    /// A registry that knows no block.
    pub fn new() -> (r: BlockRegistry)
        ensures
            r@ == Seq::<(Seq<char>, Seq<char>, bool)>::empty(),
    {
        let r = BlockRegistry { entries: Vec::new() };
        assert(r@ =~= Seq::<(Seq<char>, Seq<char>, bool)>::empty());
        r
    }

    /// Register every definition of `module`, in the module's order, after those already
    /// known. The ids must stay within `u32`.
    pub fn register_module(&mut self, module: &Module)
        requires
            old(self)@.len() + module.defs().len() <= 0x1_0000_0000,
        ensures
            final(self)@ == old(self)@ + module.defs().map_values(
                |d: ModuleBlockDefinition|
                    (d.module_view(), d.id_view(), d.definition_view().homogeneous_view()),
            ),
    {
        let ghost start = self@;
        let ghost added = module.defs().map_values(
            |d: ModuleBlockDefinition|
                (d.module_view(), d.id_view(), d.definition_view().homogeneous_view()),
        );
        let mut i: usize = 0;
        assert(self@ =~= start + added.subrange(0, 0));
        while i < module.block_defs.len()
            invariant
                0 <= i <= module.defs().len(),
                added.len() == module.defs().len(),
                forall|j: int| 0 <= j < added.len() ==> #[trigger] added[j] == (
                    module.defs()[j].module_view(),
                    module.defs()[j].id_view(),
                    module.defs()[j].definition_view().homogeneous_view(),
                ),
                self@ == start + added.subrange(0, i as int),
            decreases module.defs().len() - i,
        {
            let d = &module.block_defs[i];
            let entry = RegistryEntry {
                module: d.module.clone(),
                block: d.id.clone(),
                homogeneous: d.def.homogeneous,
            };
            let ghost before = self.entries@;
            self.entries.push(entry);
            i = i + 1;
            assert(self@ =~= start + added.subrange(0, i as int)) by {
                assert(self.entries@ == before.push(entry));
                assert(*d == module.defs()[i - 1]);
                assert((entry.module@, entry.block@, entry.homogeneous) == added[i - 1]);
                assert(self@ =~= before.map_values(
                    |e: RegistryEntry| (e.module@, e.block@, e.homogeneous),
                ).push(added[i - 1]));
                assert(added.subrange(0, i as int) =~= added.subrange(0, i - 1).push(added[i - 1]));
            }
        }
        assert(added.subrange(0, i as int) =~= added);
    }

    /// The handle of the definition `block` of the module `module`: its first place in the
    /// registry, and its homogeneity; `None` where it was never registered.
    pub fn handle(&self, module: &str, block: &str) -> (r: Option<crate::BlockHandle>)
        requires
            self@.len() <= 0x1_0000_0000,
        ensures
            match registry_index(self@, module@, block@) {
                Some(i) => r == Some(crate::BlockHandle { id: i as u32, homogeneous: self@[i].2 }),
                None => r is None,
            },
    {
        let module_id = module.to_owned();
        let block_id = block.to_owned();
        let mut i: usize = 0;
        while i < self.entries.len()
            invariant
                0 <= i <= self@.len(),
                self@.len() == self.entries@.len(),
                self@.len() <= 0x1_0000_0000,
                module_id@ == module@,
                block_id@ == block@,
                forall|j: int| 0 <= j < i ==> !(#[trigger] self@[j].0 == module@ && self@[j].1 == block@),
            decreases self@.len() - i,
        {
            let e = &self.entries[i];
            if e.module == module_id && e.block == block_id {
                proof {
                    let k = registry_index(self@, module@, block@)->Some_0;
                    assert(self@[i as int].0 == module@ && self@[i as int].1 == block@);
                    if k < i {
                        assert(!(self@[k].0 == module@ && self@[k].1 == block@));
                    } else if k > i {
                        assert(!(self@[i as int].0 == module@ && self@[i as int].1 == block@));
                    }
                }
                return Some(crate::BlockHandle { id: i as u32, homogeneous: e.homogeneous });
            }
            i = i + 1;
        }
        None
    }

    /// The module id and block id of the definition that `handle` denotes; `None` where no
    /// definition has that id.
    pub fn names(&self, handle: crate::BlockHandle) -> (r: Option<(String, String)>)
        ensures
            handle.id < self@.len() ==> (r matches Some((m, b)) && m@ == self@[handle.id as int].0
                && b@ == self@[handle.id as int].1),
            handle.id >= self@.len() ==> r is None,
    {
        if (handle.id as usize) < self.entries.len() {
            let e = &self.entries[handle.id as usize];
            Some((e.module.clone(), e.block.clone()))
        } else {
            None
        }
    }
}

/// The definitions `defs` of the module `module_id`, each with its id, in the same order.
pub fn map_block_defs(defs: Vec<(String, BlockDefinition)>, module_id: &str) -> (r: Vec<
    ModuleBlockDefinition,
>)
    ensures
        r@.len() == defs@.len(),
        forall|i: int|
            0 <= i < r@.len() ==> (#[trigger] r@[i]).module_view() == module_id@ && r@[i].id_view()
                == defs@[i].0@ && r@[i].definition_view() == defs@[i].1,
{
    let ghost d = defs@;
    let mut r: Vec<ModuleBlockDefinition> = Vec::new();
    for entry in it: defs.into_iter()
        invariant
            it.seq() == d,
            r@.len() == it.index(),
            forall|j: int|
                0 <= j < r@.len() ==> (#[trigger] r@[j]).module_view() == module_id@ && r@[j].id_view()
                    == d[j].0@ && r@[j].definition_view() == d[j].1,
    {
        let (id, def) = entry;
        r.push(ModuleBlockDefinition { module: module_id.to_owned(), id, def });
    }
    r
}

} // verus!
