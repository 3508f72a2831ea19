use voxanet::fade::{LodAnimator, Opacity};
use voxanet::keys::{AnyKey, ChunkKey, LodKey};

const DEN: u64 = 2000 * 2000 * 2000;

fn chunk(u: u32) -> AnyKey {
    AnyKey::Voxel(ChunkKey { face: 0, u_idx: u, v_idx: 0 })
}

#[test]
fn spawning_rises_along_the_smoothstep() {
    let mut a: LodAnimator<u32> = LodAnimator::new();
    a.start_spawn(chunk(1), 1000);
    assert_eq!(a.get_opacity(chunk(1), 1000), Opacity { num: 0, den: DEN });
    assert_eq!(a.get_opacity(chunk(1), 2000), Opacity { num: DEN / 2, den: DEN });
    assert_eq!(a.get_opacity(chunk(1), 1500), Opacity { num: 500 * 500 * 5000, den: DEN });
    assert_eq!(a.get_opacity(chunk(1), 3000), Opacity { num: DEN, den: DEN });
    assert_eq!(a.get_opacity(chunk(1), 9000), Opacity { num: DEN, den: DEN });
    assert_eq!(a.get_opacity(chunk(1), 500), Opacity { num: 0, den: DEN });
}

#[test]
fn resident_keys_are_opaque() {
    let a: LodAnimator<u32> = LodAnimator::new();
    assert_eq!(a.get_opacity(chunk(2), 5), Opacity { num: DEN, den: DEN });
}

#[test]
fn spawn_opacity_never_falls_and_stays_in_range() {
    let mut a: LodAnimator<u32> = LodAnimator::new();
    a.start_spawn(chunk(3), 0);
    let mut last = 0;
    for t in (0..2600).step_by(50) {
        let o = a.get_opacity(chunk(3), t);
        assert!(o.num >= last);
        assert!(o.num <= o.den);
        last = o.num;
    }
}

#[test]
fn retiring_fades_out_and_then_drops() {
    let mut a: LodAnimator<&str> = LodAnimator::new();
    let key = AnyKey::Lod(LodKey { face: 2, x: 0, y: 0, size: 64 });
    a.retire(key, "mesh", 100);
    let mid = a.update_dying(1100);
    assert_eq!(mid, vec![(key, Opacity { num: DEN / 2, den: DEN })]);
    let mut last = DEN;
    for t in (100..2100).step_by(100) {
        let r = a.update_dying(t);
        assert_eq!(r.len(), 1);
        assert!(r[0].1.num <= last);
        last = r[0].1.num;
    }
    assert!(a.update_dying(2100).is_empty());
    assert!(a.update_dying(2200).is_empty());
}

#[test]
fn reviving_cancels_retirement() {
    let mut a: LodAnimator<u8> = LodAnimator::new();
    a.retire(chunk(4), 7, 0);
    a.start_spawn(chunk(4), 500);
    assert!(a.update_dying(600).is_empty());
    assert_eq!(a.get_opacity(chunk(4), 500), Opacity { num: 0, den: DEN });
}

#[test]
fn retiring_a_spawning_key_stops_its_fade_in() {
    let mut a: LodAnimator<u8> = LodAnimator::new();
    a.start_spawn(chunk(5), 0);
    a.retire(chunk(5), 1, 1000);
    assert_eq!(a.get_opacity(chunk(5), 1000), Opacity { num: DEN, den: DEN });
    assert_eq!(a.update_dying(1000), vec![(chunk(5), Opacity { num: DEN, den: DEN })]);
}
