use voxanet::keys::BlockId;
use voxanet::lighting::LightEngine;
use voxanet::terrain::PlanetTerrain;
use voxanet::world::PlanetData;

fn flat_world(res: u32, height: u16) -> PlanetData {
    let n = 6 * (res as usize) * (res as usize);
    PlanetData::new(PlanetTerrain::new(res, vec![height; n]))
}

fn id(layer: u32, u: u32, v: u32) -> BlockId {
    BlockId { face: 0, layer, u, v }
}

#[test]
fn sunlight_dims_under_each_block_above() {
    let mut p = flat_world(32, 10);
    assert_eq!(LightEngine::trace_sunlight(id(10, 5, 5), &p), 15);
    p.add_block(id(14, 5, 5));
    assert_eq!(LightEngine::trace_sunlight(id(10, 5, 5), &p), 7);
    p.add_block(id(17, 5, 5));
    assert_eq!(LightEngine::trace_sunlight(id(10, 5, 5), &p), 0);
    assert_eq!(LightEngine::trace_sunlight(id(9, 5, 5), &p), 0);
    assert_eq!(LightEngine::trace_sunlight(id(15, 5, 5), &p), 7);
    assert_eq!(LightEngine::trace_sunlight(id(2, 5, 5), &p), 0);
}

#[test]
fn sunlight_probe_stops_at_the_shell() {
    let mut p = flat_world(16, 10);
    p.add_block(id(15, 5, 5));
    assert_eq!(LightEngine::trace_sunlight(id(14, 5, 5), &p), 7);
    assert_eq!(LightEngine::trace_sunlight(id(15, 5, 5), &p), 15);
}

#[test]
fn light_is_cached_until_the_area_is_refreshed() {
    let mut p = flat_world(32, 10);
    let mut light = LightEngine::new();
    assert_eq!(light.calculate_light(id(10, 5, 5), &p), 15);
    p.add_block(id(12, 5, 5));
    assert_eq!(light.calculate_light(id(10, 5, 5), &p), 15);
    light.propagate_area(id(12, 5, 5), 32, 2);
    assert_eq!(light.calculate_light(id(10, 5, 5), &p), 7);
    light.propagate_area(id(12, 5, 5), 32, 1);
    assert_eq!(light.calculate_light(id(10, 5, 5), &p), 7);
}

#[test]
fn refreshing_at_the_edge_clamps_to_the_face() {
    let p = flat_world(8, 3);
    let mut light = LightEngine::new();
    assert_eq!(light.calculate_light(id(7, 7, 0), &p), 15);
    let mut q = flat_world(8, 3);
    q.add_block(id(7, 7, 0));
    assert_eq!(light.calculate_light(id(6, 7, 0), &q), 7);
    light.propagate_area(id(9, 12, 0), 8, 0);
    assert_eq!(light.calculate_light(id(7, 7, 0), &q), 15);
}
