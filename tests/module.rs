use voxel_map::io::{palette_from_names, palette_names};
use voxel_map::module::{map_block_defs, BlockDefinition, BlockRegistry, Color, Module};
use voxel_map::{BlockHandle, OctreeBlock};

fn dirt_def() -> BlockDefinition {
    BlockDefinition::new("dirt.png".to_owned(), Color { r: 143, g: 86, b: 59 }, true)
}

fn machine_def() -> BlockDefinition {
    BlockDefinition::new("machine.png".to_owned(), Color { r: 1, g: 2, b: 3 }, false)
}

#[test]
fn module_finds_blocks_by_id() {
    let module = Module::new(
        "test".to_owned(),
        "[test]".to_owned(),
        "[internal]".to_owned(),
        vec![("dirt".to_owned(), dirt_def()), ("machine".to_owned(), machine_def())],
    );
    assert_eq!(module.id(), "test");
    let dirt = module.block_by_id("dirt").unwrap();
    assert_eq!(dirt.id(), "dirt");
    assert_eq!(dirt.module(), "test");
    assert!(dirt.definition().is_homogeneous());
    assert_eq!(dirt.definition().texture(), "dirt.png");
    assert_eq!(dirt.definition().color(), Color { r: 143, g: 86, b: 59 });
    let machine = module.block_by_id("machine").unwrap();
    assert!(!machine.definition().is_homogeneous());
    assert!(module.block_by_id("stone").is_none());
}

#[test]
fn map_block_defs_keeps_order_and_module() {
    let defs = map_block_defs(
        vec![("a".to_owned(), dirt_def()), ("b".to_owned(), machine_def())],
        "m",
    );
    assert_eq!(defs.len(), 2);
    assert_eq!(defs[0].id(), "a");
    assert_eq!(defs[1].id(), "b");
    assert_eq!(defs[1].module(), "m");
}

fn two_modules() -> BlockRegistry {
    let base = Module::new(
        "base".to_owned(),
        "Base".to_owned(),
        "base".to_owned(),
        vec![("dirt".to_owned(), dirt_def()), ("machine".to_owned(), machine_def())],
    );
    let extra = Module::new(
        "extra".to_owned(),
        "Extra".to_owned(),
        "extra".to_owned(),
        vec![("dirt".to_owned(), machine_def())],
    );
    let mut registry = BlockRegistry::new();
    registry.register_module(&base);
    registry.register_module(&extra);
    registry
}

#[test]
fn registry_hands_out_ids_in_order() {
    let registry = two_modules();
    assert_eq!(registry.handle("base", "dirt"), Some(BlockHandle { id: 0, homogeneous: true }));
    assert_eq!(registry.handle("base", "machine"), Some(BlockHandle { id: 1, homogeneous: false }));
    assert_eq!(registry.handle("extra", "dirt"), Some(BlockHandle { id: 2, homogeneous: false }));
    assert_eq!(registry.handle("extra", "machine"), None);
    assert_eq!(registry.names(BlockHandle { id: 2, homogeneous: false }), Some(("extra".to_owned(), "dirt".to_owned())));
    assert_eq!(registry.names(BlockHandle { id: 3, homogeneous: true }), None);
}

#[test]
fn palette_names_round_trip() {
    let registry = two_modules();
    let palette = vec![
        OctreeBlock(Some(BlockHandle { id: 1, homogeneous: false })),
        OctreeBlock(None),
        OctreeBlock(Some(BlockHandle { id: 0, homogeneous: true })),
    ];
    let names = palette_names(&registry, &palette).unwrap();
    assert_eq!(
        names,
        vec![
            Some(("base".to_owned(), "machine".to_owned())),
            None,
            Some(("base".to_owned(), "dirt".to_owned())),
        ]
    );
    assert_eq!(palette_from_names(&registry, &names).unwrap(), palette);
}

#[test]
fn unknown_blocks_in_palettes() {
    let registry = two_modules();
    let palette = vec![OctreeBlock(Some(BlockHandle { id: 9, homogeneous: true }))];
    assert!(palette_names(&registry, &palette).is_none());
    let names = vec![None, Some(("base".to_owned(), "stone".to_owned()))];
    assert!(palette_from_names(&registry, &names).is_none());
}
