use voxanet::keys::{BlockId, ChunkKey};
use voxanet::mesh::{Material, MeshGen};
use voxanet::terrain::PlanetTerrain;
use voxanet::world::PlanetData;

fn world_with(res: u32, height: u16, raised: &[(u8, u32, u32, u16)]) -> PlanetData {
    let n = 6 * (res as usize) * (res as usize);
    let mut heights = vec![height; n];
    for &(face, u, v, h) in raised {
        heights[PlanetTerrain::get_index(face, u, v, res)] = h;
    }
    PlanetData::new(PlanetTerrain::new(res, heights))
}

fn id(face: u8, layer: u32, u: u32, v: u32) -> BlockId {
    BlockId { face, layer, u, v }
}

#[test]
fn flat_chunk_meshes_one_block_per_column() {
    let p = world_with(40, 10, &[]);
    let key = ChunkKey { face: 0, u_idx: 0, v_idx: 0 };
    let blocks = MeshGen::chunk_blocks(key, &p);
    assert_eq!(blocks.len(), 32 * 32);
    assert!(blocks.iter().all(|b| b.layer == 10));
    let edge = ChunkKey { face: 0, u_idx: 1, v_idx: 1 };
    assert_eq!(MeshGen::chunk_blocks(edge, &p).len(), 8 * 8);
}

#[test]
fn cliff_sides_are_filled_down_to_the_lower_neighbour() {
    let p = world_with(16, 10, &[(0, 5, 5, 14)]);
    assert_eq!(MeshGen::fill_bottom_at(p.terrain(), 0, 5, 5), 11);
    let blocks = MeshGen::chunk_blocks(ChunkKey { face: 0, u_idx: 0, v_idx: 0 }, &p);
    let column: Vec<u32> = blocks.iter().filter(|b| b.u == 5 && b.v == 5).map(|b| b.layer).collect();
    let mut sorted = column.clone();
    sorted.sort();
    assert_eq!(sorted, vec![11, 12, 13, 14]);
    assert_eq!(blocks.len(), 16 * 16 + 3);
}

#[test]
fn cliff_fill_stops_twenty_layers_down() {
    let p = world_with(64, 5, &[(1, 3, 3, 40)]);
    assert_eq!(MeshGen::fill_bottom_at(p.terrain(), 1, 3, 3), 21);
}

#[test]
fn mining_exposes_the_neighbours() {
    let mut p = world_with(16, 10, &[]);
    p.remove_block(id(0, 10, 4, 4));
    let blocks = MeshGen::chunk_blocks(ChunkKey { face: 0, u_idx: 0, v_idx: 0 }, &p);
    assert!(!blocks.contains(&id(0, 10, 4, 4)));
    assert!(blocks.contains(&id(0, 9, 4, 4)));
    let total = blocks.len();
    assert_eq!(total, 16 * 16 - 1 + 1);
    let mut seen = blocks.clone();
    seen.sort_by_key(|b| (b.layer, b.u, b.v));
    seen.dedup();
    assert_eq!(seen.len(), total);
}

#[test]
fn mining_next_to_a_chunk_border_reaches_the_neighbouring_chunk() {
    let mut p = world_with(64, 10, &[]);
    p.remove_block(id(0, 10, 32, 7));
    p.remove_block(id(0, 9, 32, 7));
    let left = MeshGen::chunk_blocks(ChunkKey { face: 0, u_idx: 0, v_idx: 0 }, &p);
    assert!(left.contains(&id(0, 9, 31, 7)));
    assert!(left.contains(&id(0, 10, 31, 7)));
}

#[test]
fn placed_blocks_join_the_mesh() {
    let mut p = world_with(16, 10, &[]);
    p.add_block(id(0, 13, 2, 3));
    let blocks = MeshGen::chunk_blocks(ChunkKey { face: 0, u_idx: 0, v_idx: 0 }, &p);
    assert!(blocks.contains(&id(0, 13, 2, 3)));
    assert_eq!(blocks.len(), 16 * 16 + 1);
}

#[test]
fn ambient_occlusion_levels() {
    assert_eq!(MeshGen::calculate_ao(false, false, false), 0);
    assert_eq!(MeshGen::calculate_ao(false, false, true), 0);
    assert_eq!(MeshGen::calculate_ao(true, false, false), 1);
    assert_eq!(MeshGen::calculate_ao(true, false, true), 2);
    assert_eq!(MeshGen::calculate_ao(true, true, false), 2);
    assert_eq!(MeshGen::calculate_ao(true, true, true), 3);
}

#[test]
fn surface_block_shows_its_top_as_lit_grass() {
    let p = world_with(16, 10, &[]);
    let f = MeshGen::voxel_faces(id(0, 10, 5, 5), &p).unwrap();
    assert!(f.top);
    assert!(!f.bottom && !f.left && !f.right && !f.front && !f.back);
    assert_eq!((f.ao_bl, f.ao_br, f.ao_tr, f.ao_tl), (0, 0, 0, 0));
    assert!(f.lit);
    assert_eq!(f.material, Material::Grass);
}

#[test]
fn buried_block_shows_nothing() {
    let p = world_with(16, 10, &[]);
    assert!(MeshGen::voxel_faces(id(0, 7, 5, 5), &p).is_none());
}

#[test]
fn a_block_beside_a_pillar_gets_occlusion_and_shade() {
    let mut p = world_with(32, 10, &[]);
    p.add_block(id(0, 11, 6, 5));
    p.add_block(id(0, 11, 5, 6));
    p.remove_block(id(0, 10, 5, 5));
    p.remove_block(id(0, 9, 5, 5));
    p.add_block(id(0, 14, 5, 5));
    let f = MeshGen::voxel_faces(id(0, 8, 5, 5), &p).unwrap();
    assert!(f.top);
    assert!(!f.lit);
    assert_eq!(f.material, Material::Dirt);
    let g = MeshGen::voxel_faces(id(0, 10, 6, 6), &p).unwrap();
    assert_eq!(g.ao_bl, 2);
    assert_eq!(g.ao_tr, 0);
}

#[test]
fn core_blocks_are_rock() {
    let p = world_with(16, 3, &[]);
    let f = MeshGen::voxel_faces(id(0, 3, 5, 5), &p).unwrap();
    assert_eq!(f.material, Material::CoreRock);
}

#[test]
fn below_the_lowest_layer_counts_as_solid() {
    let p = world_with(16, 0, &[]);
    assert!(MeshGen::neighbor_solid(&p, id(0, 0, 5, 5), -1, 0, 0));
    assert!(!MeshGen::neighbor_solid(&p, id(0, 0, 15, 5), 0, 1, 0));
}

#[test]
fn tile_grid_triangles_follow_the_rows() {
    let inds = MeshGen::lod_indices();
    assert_eq!(inds.len(), 64 * 64 * 6 + 4 * 64 * 6);
    assert_eq!(&inds[0..6], &[0, 65, 1, 1, 65, 66]);
    let last = 63 * 64 + 63;
    let tl = 63 * 65 + 63;
    assert_eq!(&inds[6 * last..6 * last + 6], &[tl, tl + 65, tl + 1, tl + 1, tl + 65, tl + 66]);
    assert!(inds.iter().all(|&i| i < 65 * 65 + 4 * 65));
}

#[test]
fn tile_skirts_reverse_winding_on_bottom_and_left() {
    let inds = MeshGen::lod_indices();
    let grid = 64 * 64 * 6;
    let top = &inds[grid..grid + 6];
    assert_eq!(top, &[0, 4225, 4226, 0, 4226, 1]);
    let bottom = &inds[grid + 64 * 6..grid + 64 * 6 + 6];
    assert_eq!(bottom, &[4160, 4291, 4290, 4160, 4161, 4291]);
    let left = &inds[grid + 128 * 6..grid + 128 * 6 + 6];
    assert_eq!(left, &[0, 4356, 4355, 0, 65, 4356]);
    let right = &inds[grid + 192 * 6..grid + 192 * 6 + 6];
    assert_eq!(right, &[64, 4420, 4421, 64, 4421, 129]);
}

#[test]
fn mined_blocks_put_their_neighbours_forward() {
    let mut p = world_with(16, 10, &[]);
    p.remove_block(id(0, 10, 0, 15));
    let mods = p.chunk_mods(ChunkKey { face: 0, u_idx: 0, v_idx: 0 }).unwrap();
    let mut out = Vec::new();
    MeshGen::add_mined_candidates(mods, &mut out, 16);
    let mut expected = vec![id(0, 11, 0, 15), id(0, 9, 0, 15), id(0, 10, 1, 15), id(0, 10, 0, 14)];
    out.sort_by_key(|b| (b.layer, b.u, b.v));
    expected.sort_by_key(|b| (b.layer, b.u, b.v));
    assert_eq!(out, expected);
}
