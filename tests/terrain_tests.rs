use voxanet::coords::CoordSystem;
use voxanet::terrain::{NoiseGenerator, PlanetTerrain};

#[test]
fn heightmap_index_is_face_then_row_then_column() {
    assert_eq!(PlanetTerrain::get_index(0, 0, 0, 49), 0);
    assert_eq!(PlanetTerrain::get_index(0, 3, 2, 49), 2 * 49 + 3);
    assert_eq!(PlanetTerrain::get_index(5, 48, 48, 49), 6 * 49 * 49 - 1);
}

#[test]
fn heights_read_back_and_clamp_at_the_edge() {
    let res: u32 = 4;
    let heights: Vec<u16> = (0..6 * 16).map(|i| i as u16).collect();
    let t = PlanetTerrain::new(res, heights);
    assert_eq!(t.get_height(1, 2, 3), 16 + 3 * 4 + 2);
    assert_eq!(t.get_height(1, 9, 3), 16 + 3 * 4 + 3);
    assert_eq!(t.get_height(2, 9, 9), 32 + 15);
}

#[test]
fn permutation_table_holds_each_byte_once_twice_over() {
    let g = NoiseGenerator::new(42);
    let p = g.perm();
    assert_eq!(p.len(), 512);
    let mut seen = [false; 256];
    for i in 0..256 {
        assert!(!seen[p[i] as usize]);
        seen[p[i] as usize] = true;
        assert_eq!(p[i], p[i + 256]);
    }
}

#[test]
fn permutation_table_depends_on_the_seed_alone() {
    let a = NoiseGenerator::new(42);
    let b = NoiseGenerator::new(42);
    let c = NoiseGenerator::new(7);
    assert_eq!(a.perm(), b.perm());
    assert_ne!(a.perm(), c.perm());
}

#[test]
fn permutation_table_first_swap_follows_the_generator() {
    let g = NoiseGenerator::new(0);
    let state: u32 = 0u32.wrapping_mul(1664525).wrapping_add(1013904223);
    let j = (state as usize) % 256;
    let mut expected: Vec<u8> = (0..=255).collect();
    expected.swap(255, j);
    let mut s = state;
    for i in (1..255).rev() {
        s = s.wrapping_mul(1664525).wrapping_add(1013904223);
        let j = (s as usize) % (i + 1);
        expected.swap(i, j);
    }
    assert_eq!(&g.perm()[..256], &expected[..]);
}

#[test]
fn grid_coordinates_clamp_to_the_face() {
    assert_eq!(CoordSystem::grid_cell(-3, 49), 0);
    assert_eq!(CoordSystem::grid_cell(17, 49), 17);
    assert_eq!(CoordSystem::grid_cell(49, 49), 48);
    assert_eq!(CoordSystem::layer_in_shell(-1, 49), None);
    assert_eq!(CoordSystem::layer_in_shell(0, 49), Some(0));
    assert_eq!(CoordSystem::layer_in_shell(48, 49), Some(48));
    assert_eq!(CoordSystem::layer_in_shell(49, 49), None);
}
