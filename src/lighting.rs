use vstd::prelude::*;
use crate::keys::BlockId;
use crate::world::PlanetData;

verus! {

/// Light level of open sky.
pub const SUNLIGHT_START: u8 = 15;

/// Light lost to each solid block above.
pub const SHADE_STEP: u8 = 8;

/// How many layers above a block the sunlight probe looks at.
pub const PROBE_DEPTH: u32 = 8;

/// Number of solid blocks among the first `n` layers above `id` that lie inside the shell.
pub open spec fn solid_above(p: PlanetData, id: BlockId, n: nat) -> nat
    decreases n,
{
    if n == 0 {
        0
    } else {
        let l = id.layer + n;
        solid_above(p, id, (n - 1) as nat) + if l < p.res() && p.solid_at(
            BlockId { layer: l as u32, ..id },
        ) {
            1nat
        } else {
            0nat
        }
    }
}

/// Sunlight left after passing `count` solid blocks.
pub open spec fn light_after(count: nat) -> u8 {
    if count == 0 {
        SUNLIGHT_START
    } else if count == 1 {
        (SUNLIGHT_START - SHADE_STEP) as u8
    } else {
        0
    }
}

/// Sunlight reaching a block: full sky, dimmed by each solid block in the probe above.
pub open spec fn sky_light(p: PlanetData, id: BlockId) -> u8 {
    light_after(solid_above(p, id, PROBE_DEPTH as nat))
}

proof fn lemma_solid_above_grows(p: PlanetData, id: BlockId, a: nat, b: nat)
    requires
        a <= b,
    ensures
        solid_above(p, id, a) <= solid_above(p, id, b),
    decreases b,
{
    if a < b {
        lemma_solid_above_grows(p, id, a, (b - 1) as nat);
    }
}

proof fn lemma_solid_above_past_shell(p: PlanetData, id: BlockId, a: nat, b: nat)
    requires
        a <= b,
        id.layer + a + 1 >= p.res(),
    ensures
        solid_above(p, id, a) == solid_above(p, id, b),
    decreases b,
{
    if a < b {
        lemma_solid_above_past_shell(p, id, a, (b - 1) as nat);
    }
}

/// Whether `id` lies in the cube of half-width `radius` around `center`, clamped to the
/// shell of a planet of resolution `res`.
pub open spec fn in_area(center: BlockId, radius: int, res: int, id: BlockId) -> bool {
    &&& id.face == center.face
    &&& clamp_cell(center.u - radius, res) <= id.u <= clamp_cell(center.u + radius, res)
    &&& clamp_cell(center.v - radius, res) <= id.v <= clamp_cell(center.v + radius, res)
    &&& clamp_cell(center.layer - radius, res) <= id.layer <= clamp_cell(center.layer + radius, res)
}

/// `x` clamped to the cells `[0, res)`.
pub open spec fn clamp_cell(x: int, res: int) -> int {
    if x < 0 {
        0
    } else if x > res - 1 {
        res - 1
    } else {
        x
    }
}

/// The cached light of `id`, if any.
pub open spec fn cached_in(s: Seq<(BlockId, u8)>, id: BlockId) -> Option<u8> {
    if exists|i: int| 0 <= i < s.len() && (#[trigger] s[i]).0 == id {
        Some(s[choose|i: int| 0 <= i < s.len() && (#[trigger] s[i]).0 == id].1)
    } else {
        None
    }
}

/// Each block is cached once.
pub open spec fn unique_blocks(s: Seq<(BlockId, u8)>) -> bool {
    forall|i: int, j: int|
        0 <= i < s.len() && 0 <= j < s.len() && i != j ==> (#[trigger] s[i]).0 != (#[trigger] s[j]).0
}

proof fn lemma_cached_at(s: Seq<(BlockId, u8)>, i: int)
    requires
        unique_blocks(s),
        0 <= i < s.len(),
    ensures
        cached_in(s, s[i].0) == Some(s[i].1),
{
    let j = choose|j: int| 0 <= j < s.len() && (#[trigger] s[j]).0 == s[i].0;
    assert(i == j);
}

proof fn lemma_uncache(a: Seq<(BlockId, u8)>, i: int)
    requires
        unique_blocks(a),
        0 <= i < a.len(),
    ensures
        unique_blocks(a.remove(i)),
        cached_in(a.remove(i), a[i].0) == None::<u8>,
        forall|k: BlockId| k != a[i].0 ==> cached_in(a.remove(i), k) == cached_in(a, k),
{
    let key = a[i].0;
    let b = a.remove(i);
    assert forall|x: int| 0 <= x < b.len() implies b[x] == a[if x < i { x } else { x + 1 }] by {}
    assert forall|x: int, y: int|
        0 <= x < b.len() && 0 <= y < b.len() && x != y implies (#[trigger] b[x]).0 != (#[trigger] b[y]).0 by {
        let x0 = if x < i { x } else { x + 1 };
        let y0 = if y < i { y } else { y + 1 };
        assert(b[x] == a[x0] && b[y] == a[y0]);
    }
    assert forall|x: int| 0 <= x < b.len() implies (#[trigger] b[x]).0 != key by {
        let x0 = if x < i { x } else { x + 1 };
        assert(b[x] == a[x0]);
    }
    assert forall|k: BlockId| k != key implies cached_in(b, k) == cached_in(a, k) by {
        if exists|x: int| 0 <= x < a.len() && (#[trigger] a[x]).0 == k {
            let x0 = choose|x: int| 0 <= x < a.len() && (#[trigger] a[x]).0 == k;
            lemma_cached_at(a, x0);
            let x = if x0 < i { x0 } else { x0 - 1 };
            assert(b[x] == a[x0]);
            lemma_cached_at(b, x);
        } else {
            assert forall|x: int| 0 <= x < b.len() implies (#[trigger] b[x]).0 != k by {
                let x0 = if x < i { x } else { x + 1 };
                assert(b[x] == a[x0]);
            }
        }
    }
}

/// Sunlight per block, traced on demand and kept until an edit nearby invalidates it.
pub struct LightEngine {
    cache: Vec<(BlockId, u8)>,
}

impl LightEngine {
    pub closed spec fn entries(&self) -> Seq<(BlockId, u8)> {
        self.cache@
    }

    pub open spec fn cached(&self, id: BlockId) -> Option<u8> {
        cached_in(self.entries(), id)
    }

    pub open spec fn wf(&self) -> bool {
        unique_blocks(self.entries())
    }

    pub fn new() -> (r: LightEngine)
        ensures
            r.wf(),
            forall|id: BlockId| r.cached(id) == None::<u8>,
    {
        LightEngine { cache: Vec::new() }
    }

    /// Sunlight reaching `id`: 15 under open sky, 7 under one solid block, 0 under more,
    /// looking at most eight layers up and not past the shell.
    pub fn trace_sunlight(id: BlockId, planet: &PlanetData) -> (r: u8)
        requires
            planet.wf(),
            id.face < 6,
        ensures
            r == sky_light(*planet, id),
    {
        let res = planet.resolution() as u64;
        let mut current_light: u8 = SUNLIGHT_START;
        let mut i: u32 = 1;
        while i <= PROBE_DEPTH
            invariant
                planet.wf(),
                id.face < 6,
                res == planet.res(),
                1 <= i <= PROBE_DEPTH + 1,
                current_light == light_after(solid_above(*planet, id, (i - 1) as nat)),
            decreases PROBE_DEPTH + 1 - i,
        {
            let check_layer = id.layer as u64 + i as u64;
            if check_layer >= res {
                proof {
                    lemma_solid_above_past_shell(*planet, id, (i - 1) as nat, PROBE_DEPTH as nat);
                }
                return current_light;
            }
            let check_id = BlockId { layer: check_layer as u32, ..id };
            if planet.block_exists(check_id) {
                current_light = if current_light >= SHADE_STEP { current_light - SHADE_STEP } else { 0 };
                if current_light == 0 {
                    proof {
                        lemma_solid_above_grows(*planet, id, i as nat, PROBE_DEPTH as nat);
                    }
                    return 0;
                }
            }
            i = i + 1;
        }
        current_light
    }

    fn lookup(&self, id: BlockId) -> (r: Option<usize>)
        ensures
            match r {
                Some(i) => i < self.entries().len() && self.entries()[i as int].0 == id,
                None => forall|i: int| 0 <= i < self.entries().len() ==> (#[trigger] self.entries()[i]).0 != id,
            },
    {
        let mut i: usize = 0;
        while i < self.cache.len()
            invariant
                i <= self.entries().len(),
                forall|j: int| 0 <= j < i ==> (#[trigger] self.entries()[j]).0 != id,
            decreases self.entries().len() - i,
        {
            if self.cache[i].0 == id {
                return Some(i);
            }
            i = i + 1;
        }
        None
    }

    /// The light of `id`: the cached value when there is one, otherwise the traced value,
    /// which is then cached.
    pub fn calculate_light(&mut self, id: BlockId, planet: &PlanetData) -> (r: u8)
        requires
            old(self).wf(),
            planet.wf(),
            id.face < 6,
        ensures
            final(self).wf(),
            r == (match old(self).cached(id) {
                Some(c) => c,
                None => sky_light(*planet, id),
            }),
            final(self).cached(id) == Some(r),
            forall|other: BlockId| other != id ==> final(self).cached(other) == old(self).cached(other),
    {
        match self.lookup(id) {
            Some(i) => {
                let c = self.cache[i].1;
                proof {
                    let j = choose|j: int|
                        0 <= j < self.entries().len() && (#[trigger] self.entries()[j]).0 == id;
                    assert(i == j);
                }
                c
            },
            None => {
                let light = Self::trace_sunlight(id, planet);
                let ghost a = self.entries();
                self.cache.push((id, light));
                proof {
                    let b = self.entries();
                    assert(b[a.len() as int].0 == id);
                    let j = choose|j: int| 0 <= j < b.len() && (#[trigger] b[j]).0 == id;
                    if j < a.len() {
                        assert(b[j] == a[j]);
                    }
                    assert forall|other: BlockId| other != id implies cached_in(b, other) == cached_in(
                        a,
                        other,
                    ) by {
                        if exists|x: int| 0 <= x < a.len() && (#[trigger] a[x]).0 == other {
                            let x = choose|x: int| 0 <= x < a.len() && (#[trigger] a[x]).0 == other;
                            assert(b[x] == a[x]);
                            let y = choose|y: int| 0 <= y < b.len() && (#[trigger] b[y]).0 == other;
                            if y < a.len() {
                                assert(b[y] == a[y]);
                            }
                        }
                        if exists|y: int| 0 <= y < b.len() && (#[trigger] b[y]).0 == other {
                            let y = choose|y: int| 0 <= y < b.len() && (#[trigger] b[y]).0 == other;
                            assert(y < a.len());
                            assert(b[y] == a[y]);
                        }
                    }
                }
                light
            },
        }
    }

    /// Whether `id` lies in the clamped cube around `center`.
    fn area_holds(center: BlockId, radius: u32, res: u32, id: BlockId) -> (r: bool)
        requires
            res >= 1,
        ensures
            r == in_area(center, radius as int, res as int, id),
    {
        let last = res as i64 - 1;
        let rad = radius as i64;
        let clamp = |x: i64| -> (c: i64)
            requires
                last >= 0,
            ensures
                c == clamp_cell(x as int, last + 1),
            { if x < 0 { 0 } else if x > last { last } else { x } };
        let u = id.u as i64;
        let v = id.v as i64;
        let l = id.layer as i64;
        id.face == center.face && clamp(center.u as i64 - rad) <= u && u <= clamp(center.u as i64 + rad)
            && clamp(center.v as i64 - rad) <= v && v <= clamp(center.v as i64 + rad) && clamp(
            center.layer as i64 - rad,
        ) <= l && l <= clamp(center.layer as i64 + rad)
    }

    /// Forgets the light of every block in the cube of half-width `radius` around
    /// `center`, clamped to the shell, so that it is traced again after an edit.
    pub fn propagate_area(&mut self, center: BlockId, res: u32, radius: u32)
        requires
            old(self).wf(),
            res >= 1,
        ensures
            final(self).wf(),
            forall|id: BlockId|
                #[trigger] final(self).cached(id) == (if in_area(center, radius as int, res as int, id) {
                    None::<u8>
                } else {
                    old(self).cached(id)
                }),
    {
        let mut i: usize = 0;
        while i < self.cache.len()
            invariant
                res >= 1,
                i <= self.entries().len(),
                unique_blocks(self.entries()),
                forall|id: BlockId|
                    !in_area(center, radius as int, res as int, id) ==> #[trigger] cached_in(
                        self.entries(),
                        id,
                    ) == cached_in(old(self).entries(), id),
                forall|j: int|
                    0 <= j < i ==> !in_area(center, radius as int, res as int, (#[trigger] self.entries()[j]).0),
            decreases self.entries().len() - i,
        {
            if Self::area_holds(center, radius, res, self.cache[i].0) {
                let ghost a = self.entries();
                proof {
                    lemma_uncache(a, i as int);
                }
                self.cache.remove(i);
                proof {
                    assert forall|j: int| 0 <= j < i implies !in_area(center, radius as int, res as int, (#[trigger] self.entries()[j]).0) by {
                        assert(self.entries()[j] == a[j]);
                    }
                    assert forall|id: BlockId|
                        !in_area(center, radius as int, res as int, id) implies #[trigger] cached_in(
                            self.entries(),
                            id,
                        ) == cached_in(old(self).entries(), id) by {
                        assert(id != a[i as int].0);
                        assert(cached_in(a, id) == cached_in(old(self).entries(), id));
                    }
                }
            } else {
                i = i + 1;
            }
        }
        proof {
            assert forall|id: BlockId| in_area(center, radius as int, res as int, id) implies #[trigger] cached_in(
                self.entries(),
                id,
            ) == None::<u8> by {
                if exists|x: int| 0 <= x < self.entries().len() && (#[trigger] self.entries()[x]).0 == id {
                    let x = choose|x: int| 0 <= x < self.entries().len() && (#[trigger] self.entries()[x]).0 == id;
                    assert(!in_area(center, radius as int, res as int, self.entries()[x].0));
                }
            }
        }
    }
}

} // verus!
