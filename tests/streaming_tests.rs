use voxanet::keys::{AnyKey, BlockId, ChunkKey, LodKey};
use voxanet::streaming::LodStreamer;

fn covers(k: &AnyKey, face: u8, u: u32, v: u32) -> bool {
    match k {
        AnyKey::Voxel(c) => {
            c.face == face && c.u_idx * 32 <= u && u < c.u_idx * 32 + 32 && c.v_idx * 32 <= v
                && v < c.v_idx * 32 + 32
        }
        AnyKey::Lod(l) => l.face == face && l.x <= u && u < l.x + l.size && l.y <= v && v < l.y + l.size,
    }
}

fn assert_tiles(keys: &[AnyKey], res: u32) {
    for face in 0..6u8 {
        for u in 0..res {
            for v in 0..res {
                let n = keys.iter().filter(|k| covers(k, face, u, v)).count();
                assert_eq!(n, 1, "cell {} {} {}", face, u, v);
            }
        }
    }
}

#[test]
fn quadtree_root_is_a_power_of_two_chunks() {
    assert_eq!(LodStreamer::root_size(49), 64);
    assert_eq!(LodStreamer::root_size(10), 32);
    assert_eq!(LodStreamer::root_size(100), 128);
    assert_eq!(LodStreamer::root_size(16384), 16384);
}

#[test]
fn detail_factor_steps_up_toward_chunk_size() {
    assert_eq!(LodStreamer::lod_factor(1024), 4);
    assert_eq!(LodStreamer::lod_factor(256), 5);
    assert_eq!(LodStreamer::lod_factor(128), 7);
    assert_eq!(LodStreamer::lod_factor(64), 12);
    assert_eq!(LodStreamer::lod_factor(32), 18);
}

#[test]
fn far_viewpoint_needs_one_tile_per_face() {
    let keys = LodStreamer::required_keys(100, None, &|_f: u8, _x: u32, _y: u32, _s: u32| false);
    assert_eq!(keys.len(), 6);
    for (f, k) in keys.iter().enumerate() {
        assert_eq!(*k, AnyKey::Lod(LodKey { face: f as u8, x: 0, y: 0, size: 128 }));
    }
    assert_tiles(&keys, 100);
}

#[test]
fn near_viewpoint_needs_every_chunk() {
    let keys = LodStreamer::required_keys(100, None, &|_f: u8, _x: u32, _y: u32, _s: u32| true);
    assert_eq!(keys.len(), 6 * 16);
    assert!(keys.iter().all(|k| matches!(k, AnyKey::Voxel(_))));
    assert_tiles(&keys, 100);
}

#[test]
fn the_avatar_always_stands_on_a_chunk() {
    let avatar = BlockId { face: 2, layer: 50, u: 70, v: 10 };
    let keys = LodStreamer::required_keys(100, Some(avatar), &|_f: u8, _x: u32, _y: u32, _s: u32| false);
    assert_eq!(keys.len(), 12);
    assert!(keys.contains(&AnyKey::Voxel(ChunkKey { face: 2, u_idx: 2, v_idx: 0 })));
    assert!(keys.contains(&AnyKey::Lod(LodKey { face: 2, x: 0, y: 0, size: 64 })));
    assert_tiles(&keys, 100);
}

#[test]
fn mixed_detail_still_tiles_every_face() {
    let near = |f: u8, x: u32, y: u32, s: u32| f % 2 == 0 && x + y < 200 && s > 64;
    let keys = LodStreamer::required_keys(300, None, &near);
    assert_tiles(&keys, 300);
}

#[test]
fn small_planet_is_one_chunk_per_face() {
    let keys = LodStreamer::required_keys(20, None, &|_f: u8, _x: u32, _y: u32, _s: u32| false);
    assert_eq!(keys.len(), 6);
    assert!(keys.iter().all(|k| matches!(k, AnyKey::Voxel(c) if c.u_idx == 0 && c.v_idx == 0)));
    assert_tiles(&keys, 20);
}

#[test]
fn tiles_stay_while_they_hide_a_missing_chunk() {
    let tile = LodKey { face: 1, x: 64, y: 0, size: 64 };
    let inside = ChunkKey { face: 1, u_idx: 3, v_idx: 1 };
    let beside = ChunkKey { face: 1, u_idx: 1, v_idx: 1 };
    assert!(LodStreamer::lod_overlaps_chunk(tile, inside));
    assert!(!LodStreamer::lod_overlaps_chunk(tile, beside));
    assert!(LodStreamer::lod_still_needed(tile, &vec![beside, inside]));
    assert!(!LodStreamer::lod_still_needed(tile, &vec![beside]));
}

#[test]
fn retirement_spares_required_and_covering_tiles() {
    let a = LodKey { face: 0, x: 0, y: 0, size: 64 };
    let b = LodKey { face: 0, x: 64, y: 0, size: 64 };
    let c = LodKey { face: 0, x: 0, y: 64, size: 64 };
    let required = vec![AnyKey::Lod(a), AnyKey::Voxel(ChunkKey { face: 0, u_idx: 2, v_idx: 0 })];
    let resident_chunks: Vec<ChunkKey> = Vec::new();
    let missing = LodStreamer::missing_chunks(&required, &resident_chunks);
    assert_eq!(missing, vec![ChunkKey { face: 0, u_idx: 2, v_idx: 0 }]);
    let retire = LodStreamer::lods_to_retire(&vec![a, b, c], &required, &missing);
    assert_eq!(retire, vec![c]);
    let all_there = LodStreamer::missing_chunks(&required, &missing);
    assert!(all_there.is_empty());
}

#[test]
fn chunk_jobs_are_admitted_within_the_caps() {
    assert_eq!(LodStreamer::chunk_admission(0, 10), 4);
    assert_eq!(LodStreamer::chunk_admission(0, 1), 1);
    assert_eq!(LodStreamer::chunk_admission(10, 10), 2);
    assert_eq!(LodStreamer::chunk_admission(12, 5), 0);
    assert_eq!(LodStreamer::chunk_admission(20, 5), 0);
}
