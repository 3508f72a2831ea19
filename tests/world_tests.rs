use voxanet::keys::{BlockId, ChunkKey};
use voxanet::terrain::PlanetTerrain;
use voxanet::world::PlanetData;

fn flat_world(res: u32, height: u16) -> PlanetData {
    let n = 6 * (res as usize) * (res as usize);
    PlanetData::new(PlanetTerrain::new(res, vec![height; n]))
}

fn id(face: u8, layer: u32, u: u32, v: u32) -> BlockId {
    BlockId { face, layer, u, v }
}

#[test]
fn natural_terrain_is_solid_up_to_its_height() {
    let p = flat_world(16, 8);
    assert!(p.block_exists(id(0, 8, 3, 3)));
    assert!(p.block_exists(id(0, 0, 3, 3)));
    assert!(!p.block_exists(id(0, 9, 3, 3)));
}

#[test]
fn chunk_key_groups_thirty_two_cells() {
    let k = PlanetData::get_chunk_key(id(2, 5, 70, 31));
    assert_eq!(k, ChunkKey { face: 2, u_idx: 2, v_idx: 0 });
}

#[test]
fn placing_above_the_surface_adds_a_block() {
    let mut p = flat_world(16, 8);
    let b = id(1, 10, 4, 4);
    assert!(!p.block_exists(b));
    p.add_block(b);
    assert!(p.block_exists(b));
    p.add_block(b);
    assert!(p.block_exists(b));
}

#[test]
fn removing_a_natural_block_mines_it_and_adding_restores_it() {
    let mut p = flat_world(16, 8);
    let b = id(0, 7, 2, 2);
    p.remove_block(b);
    assert!(!p.block_exists(b));
    let mods = p.chunk_mods(ChunkKey { face: 0, u_idx: 0, v_idx: 0 }).unwrap();
    assert_eq!(mods.mined().len(), 1);
    assert_eq!(mods.placed().len(), 0);
    p.add_block(b);
    assert!(p.block_exists(b));
    let mods = p.chunk_mods(ChunkKey { face: 0, u_idx: 0, v_idx: 0 }).unwrap();
    assert_eq!(mods.mined().len(), 0);
    assert_eq!(mods.placed().len(), 0);
}

#[test]
fn the_core_cannot_be_removed() {
    let mut p = flat_world(16, 8);
    let b = id(0, 5, 2, 2);
    p.remove_block(b);
    assert!(p.block_exists(b));
    assert!(p.chunk_mods(ChunkKey { face: 0, u_idx: 0, v_idx: 0 }).is_none());
    let above_core = id(0, 6, 2, 2);
    p.remove_block(above_core);
    assert!(!p.block_exists(above_core));
}

#[test]
fn removing_outside_the_shell_changes_nothing() {
    let mut p = flat_world(16, 8);
    let b = id(0, 16, 2, 2);
    p.remove_block(b);
    let mods = p.chunk_mods(ChunkKey { face: 0, u_idx: 0, v_idx: 0 });
    assert!(mods.map_or(true, |m| m.mined().is_empty() && m.placed().is_empty()));
}

#[test]
fn removing_a_placed_block_takes_it_back() {
    let mut p = flat_world(16, 8);
    let b = id(3, 12, 9, 1);
    p.add_block(b);
    p.remove_block(b);
    assert!(!p.block_exists(b));
    let mods = p.chunk_mods(ChunkKey { face: 3, u_idx: 0, v_idx: 0 }).unwrap();
    assert!(mods.mined().is_empty());
    assert!(mods.placed().is_empty());
}

#[test]
fn mined_and_placed_never_share_a_block() {
    let mut p = flat_world(16, 8);
    let blocks = [id(0, 7, 1, 1), id(0, 9, 1, 1), id(0, 8, 1, 2), id(0, 7, 1, 1)];
    for (n, b) in blocks.iter().enumerate() {
        if n % 2 == 0 {
            p.remove_block(*b);
        } else {
            p.add_block(*b);
        }
        p.add_block(*b);
        p.remove_block(*b);
        let mods = p.chunk_mods(ChunkKey { face: 0, u_idx: 0, v_idx: 0 }).unwrap();
        for m in mods.mined() {
            assert!(!mods.placed().contains(m));
        }
    }
}

#[test]
fn add_then_remove_restores_the_world() {
    let mut p = flat_world(16, 8);
    let targets = [id(0, 7, 3, 3), id(0, 12, 3, 3), id(0, 4, 3, 3)];
    p.remove_block(targets[0]);
    let before: Vec<bool> = (0..16).map(|l| p.block_exists(id(0, l, 3, 3))).collect();
    for t in targets.iter().take(2) {
        p.add_block(*t);
        p.remove_block(*t);
    }
    let after: Vec<bool> = (0..16).map(|l| p.block_exists(id(0, l, 3, 3))).collect();
    assert_eq!(before, after);
}

#[test]
fn resolution_steps() {
    assert_eq!(PlanetData::next_resolution(49, true), 58);
    assert_eq!(PlanetData::next_resolution(49, false), 40);
    assert_eq!(PlanetData::next_resolution(3, true), 4);
    assert_eq!(PlanetData::next_resolution(16384, true), 16384);
    assert_eq!(PlanetData::next_resolution(16000, true), 16384);
    assert_eq!(PlanetData::next_resolution(9, false), 8);
    assert_eq!(PlanetData::next_resolution(8, false), 8);
}

#[test]
fn resize_clears_edits() {
    let mut p = flat_world(10, 4);
    let b = id(0, 8, 1, 1);
    p.add_block(b);
    let next = PlanetData::next_resolution(p.resolution(), true);
    assert_eq!(next, 12);
    let n = 6 * (next as usize) * (next as usize);
    p.resize(true, PlanetTerrain::new(next, vec![4; n]));
    assert_eq!(p.resolution(), 12);
    assert!(!p.block_exists(b));
    assert!(p.has_core());
}
