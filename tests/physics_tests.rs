use voxanet::keys::BlockId;
use voxanet::physics::{Edge, Physics};
use voxanet::terrain::PlanetTerrain;
use voxanet::world::PlanetData;

fn flat_world(res: u32, height: u16) -> PlanetData {
    let n = 6 * (res as usize) * (res as usize);
    PlanetData::new(PlanetTerrain::new(res, vec![height; n]))
}

fn id(layer: u32, u: u32, v: u32) -> BlockId {
    BlockId { face: 0, layer, u, v }
}

#[test]
fn cell_middle_is_solid_inside_terrain() {
    let p = flat_world(16, 10);
    assert!(Physics::solid_in_cell(&p, id(10, 5, 5), Edge::Middle, Edge::Middle, Edge::Middle));
    assert!(!Physics::solid_in_cell(&p, id(11, 5, 5), Edge::Middle, Edge::Middle, Edge::Middle));
}

#[test]
fn margins_next_to_air_are_shaved() {
    let mut p = flat_world(16, 10);
    assert!(!Physics::solid_in_cell(&p, id(10, 5, 5), Edge::Middle, Edge::Middle, Edge::High));
    assert!(Physics::solid_in_cell(&p, id(10, 5, 5), Edge::Low, Edge::High, Edge::Low));
    p.remove_block(id(10, 4, 5));
    assert!(!Physics::solid_in_cell(&p, id(10, 5, 5), Edge::Low, Edge::Middle, Edge::Middle));
    assert!(Physics::solid_in_cell(&p, id(10, 5, 5), Edge::High, Edge::Middle, Edge::Middle));
}

#[test]
fn margins_at_the_face_edge_are_kept() {
    let p = flat_world(16, 10);
    assert!(Physics::solid_in_cell(&p, id(10, 0, 15), Edge::Low, Edge::High, Edge::Middle));
}
