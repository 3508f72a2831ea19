use vstd::prelude::*;
use std::sync::Arc;

verus! {

/// Largest resolution a planet may have.
pub const MAX_RESOLUTION: u32 = 16384;

/// Smallest resolution that shrinking a planet leaves.
pub const MIN_RESOLUTION: u32 = 8;

/// The noise families a terrain layer could use; only the gradient kind is generated.
#[derive(PartialEq, Eq, Structural, Clone, Copy, Debug)]
pub enum NoiseType {
    Perlin,
    Simplex,
    Cellular,
}

/// Position of `(face, u, v)` in a heightmap laid out face by face, row by row.
pub open spec fn index_of(face: int, u: int, v: int, res: int) -> int {
    face * res * res + v * res + u
}

/// `x`, but at most `hi`.
pub open spec fn min_of(x: int, hi: int) -> int {
    if x < hi { x } else { hi }
}

/// Whether `res` is a resolution a heightmap can be built for.
pub open spec fn valid_resolution(res: int) -> bool {
    1 <= res <= MAX_RESOLUTION
}

proof fn lemma_index_in_bounds(face: int, u: int, v: int, res: int)
    requires
        0 <= face < 6,
        0 <= u < res,
        0 <= v < res,
        valid_resolution(res),
    ensures
        0 <= index_of(face, u, v, res) < 6 * res * res,
        6 * res * res <= 6 * MAX_RESOLUTION * MAX_RESOLUTION,
{
    assert(0 <= index_of(face, u, v, res) < 6 * res * res) by (nonlinear_arith)
        requires
            0 <= face < 6,
            0 <= u < res,
            0 <= v < res,
    ;
    assert(6 * res * res <= 6 * MAX_RESOLUTION * MAX_RESOLUTION) by (nonlinear_arith)
        requires
            1 <= res <= MAX_RESOLUTION,
    ;
}

/// The height of the natural surface at every cell of the six faces.
///
/// The samples are shared by reference count, so a copy handed to a worker is cheap.
#[derive(Clone)]
pub struct PlanetTerrain {
    heights: Arc<Vec<u16>>,
    resolution: u32,
}

impl PlanetTerrain {
    /// The samples, face by face and row by row.
    pub closed spec fn samples(&self) -> Seq<u16> {
        self.heights@
    }

    /// The number of cells along each edge of a face.
    pub closed spec fn res(&self) -> nat {
        self.resolution as nat
    }

    pub open spec fn wf(&self) -> bool {
        &&& valid_resolution(self.res() as int)
        &&& self.samples().len() == 6 * self.res() * self.res()
    }

    /// The natural height of a cell; coordinates past the edge read the last cell.
    pub open spec fn height_at(&self, face: int, u: int, v: int) -> int {
        let r = self.res() as int;
        self.samples()[index_of(face, min_of(u, r - 1), min_of(v, r - 1), r)] as int
    }

    /// A heightmap of `resolution` cells a side from its samples.
    pub fn new(resolution: u32, heights: Vec<u16>) -> (r: PlanetTerrain)
        requires
            valid_resolution(resolution as int),
            heights@.len() == 6 * resolution * resolution,
        ensures
            r.wf(),
            r.res() == resolution,
            r.samples() == heights@,
    {
        PlanetTerrain { heights: Arc::new(heights), resolution }
    }

    pub fn resolution(&self) -> (r: u32)
        ensures
            r == self.res(),
    {
        self.resolution
    }

    /// Position of `(face, u, v)` in the samples.
    pub fn get_index(face: u8, u: u32, v: u32, res: u32) -> (r: usize)
        requires
            face < 6,
            u < res,
            v < res,
            valid_resolution(res as int),
        ensures
            r == index_of(face as int, u as int, v as int, res as int),
            r < 6 * res * res,
    {
        proof {
            lemma_index_in_bounds(face as int, u as int, v as int, res as int);
            assert(face * res <= 5 * MAX_RESOLUTION) by (nonlinear_arith)
                requires
                    face < 6,
                    res <= MAX_RESOLUTION,
            ;
            assert(face * res * res <= 5 * MAX_RESOLUTION * MAX_RESOLUTION) by (nonlinear_arith)
                requires
                    face < 6,
                    res <= MAX_RESOLUTION,
            ;
        }
        let res_z = res as usize;
        let face_offset = (face as usize) * res_z * res_z;
        let row_offset = (v as usize) * res_z;
        face_offset + row_offset + (u as usize)
    }

    /// The natural height at `(face, u, v)`, reading the last cell for coordinates past
    /// the edge.
    pub fn get_height(&self, face: u8, u: u32, v: u32) -> (r: u32)
        requires
            self.wf(),
            face < 6,
        ensures
            r == self.height_at(face as int, u as int, v as int),
    {
        let last = self.resolution - 1;
        let u_safe = if u < last { u } else { last };
        let v_safe = if v < last { v } else { last };
        let idx = Self::get_index(face, u_safe, v_safe, self.resolution);
        self.heights[idx] as u32
    }
}

/// One step of the linear congruential generator that seeds the table.
pub open spec fn lcg_next(state: u32) -> u32 {
    ((((state as int * 1664525) % 0x1_0000_0000) + 1013904223) % 0x1_0000_0000) as u32
}

proof fn lemma_lcg_step(state: u32)
    ensures
        state.wrapping_mul(1664525).wrapping_add(1013904223) == lcg_next(state),
{
    let m = (state as int * 1664525) % 0x1_0000_0000;
    assert(0 <= m < 0x1_0000_0000);
    if m + 1013904223 >= 0x1_0000_0000 {
        assert((m + 1013904223) % 0x1_0000_0000 == m + 1013904223 - 0x1_0000_0000);
    } else {
        assert((m + 1013904223) % 0x1_0000_0000 == m + 1013904223);
    }
}

proof fn lemma_shuffle_step(s: Seq<u8>, state: u32, i: int)
    requires
        i >= 1,
    ensures
        shuffle_down(s, state, i) == shuffle_down(
            swapped(s, i, (lcg_next(state) as int) % (i + 1)),
            lcg_next(state),
            i - 1,
        ),
{
}

/// `s` with the entries at `i` and `j` exchanged.
pub open spec fn swapped(s: Seq<u8>, i: int, j: int) -> Seq<u8> {
    s.update(i, s[j]).update(j, s[i])
}

/// The shuffle of `s` for positions `i` down to 1, each exchanged with a position
/// drawn from the generator.
pub open spec fn shuffle_down(s: Seq<u8>, state: u32, i: int) -> Seq<u8>
    decreases i,
{
    if i < 1 {
        s
    } else {
        let next = lcg_next(state);
        let j = (next as int) % (i + 1);
        shuffle_down(swapped(s, i, j), next, i - 1)
    }
}

/// The identity arrangement of the 256 byte values.
pub open spec fn identity_bytes() -> Seq<u8> {
    Seq::new(256, |i: int| i as u8)
}

/// The arrangement of the 256 byte values that a seed gives.
pub open spec fn permutation_for(seed: u32) -> Seq<u8> {
    shuffle_down(identity_bytes(), seed, 255)
}

proof fn lemma_swap_unique(s: Seq<u8>, i: int, j: int)
    requires
        s.no_duplicates(),
        0 <= i < s.len(),
        0 <= j < s.len(),
    ensures
        swapped(s, i, j).no_duplicates(),
        swapped(s, i, j).len() == s.len(),
{
    let t = swapped(s, i, j);
    let src = |k: int| if k == i { j } else if k == j { i } else { k };
    assert forall|a: int, b: int| 0 <= a < t.len() && 0 <= b < t.len() && a != b implies t[a] != t[b] by {
        assert(t[a] == s[src(a)] && t[b] == s[src(b)]);
    }
}

proof fn lemma_shuffle_unique(s: Seq<u8>, state: u32, i: int)
    requires
        s.no_duplicates(),
        s.len() == 256,
        i < 256,
    ensures
        shuffle_down(s, state, i).no_duplicates(),
        shuffle_down(s, state, i).len() == 256,
    decreases i,
{
    if i >= 1 {
        let next = lcg_next(state);
        let j = (next as int) % (i + 1);
        lemma_swap_unique(s, i, j);
        lemma_shuffle_unique(swapped(s, i, j), next, i - 1);
    }
}

proof fn lemma_swap_keeps(s: Seq<u8>, i: int, j: int)
    requires
        0 <= i < s.len(),
        0 <= j < s.len(),
    ensures
        forall|b: u8| s.contains(b) ==> #[trigger] swapped(s, i, j).contains(b),
{
    let t = swapped(s, i, j);
    assert forall|b: u8| s.contains(b) implies #[trigger] t.contains(b) by {
        let k = choose|k: int| 0 <= k < s.len() && s[k] == b;
        let dest = if k == i { j } else if k == j { i } else { k };
        assert(t[dest] == b);
    }
}

proof fn lemma_shuffle_keeps(s: Seq<u8>, state: u32, i: int)
    requires
        s.len() == 256,
        i < 256,
        forall|b: u8| #[trigger] s.contains(b),
    ensures
        forall|b: u8| #[trigger] shuffle_down(s, state, i).contains(b),
    decreases i,
{
    if i >= 1 {
        let next = lcg_next(state);
        let j = (next as int) % (i + 1);
        lemma_swap_keeps(s, i, j);
        lemma_shuffle_keeps(swapped(s, i, j), next, i - 1);
        assert(shuffle_down(s, state, i) == shuffle_down(swapped(s, i, j), next, i - 1));
    }
}

/// For every seed the table holds each of the 256 byte values exactly once.
pub proof fn lemma_table_is_permutation(seed: u32)
    ensures
        permutation_for(seed).len() == 256,
        permutation_for(seed).no_duplicates(),
        forall|b: u8| #[trigger] permutation_for(seed).contains(b),
{
    let id = identity_bytes();
    assert forall|a: int, b: int| 0 <= a < id.len() && 0 <= b < id.len() && a != b implies id[a]
        != id[b] by {}
    assert forall|b: u8| #[trigger] id.contains(b) by {
        assert(id[b as int] == b);
    }
    lemma_shuffle_unique(id, seed, 255);
    lemma_shuffle_keeps(id, seed, 255);
}

/// Two tables built from one seed are the same, whatever else differs between the runs.
pub proof fn lemma_same_seed_same_table(seed: u32, a: NoiseGenerator, b: NoiseGenerator)
    requires
        a.table() == permutation_for(seed) + permutation_for(seed),
        b.table() == permutation_for(seed) + permutation_for(seed),
    ensures
        a.table() == b.table(),
{
}

/// The seeded permutation table of gradient noise: 256 shuffled bytes, stored twice
/// so that lookups may run past the end.
pub struct NoiseGenerator {
    perm: Vec<u8>,
}

impl NoiseGenerator {
    pub closed spec fn table(&self) -> Seq<u8> {
        self.perm@
    }

    /// The 512 entries of the table.
    pub fn perm(&self) -> (r: &Vec<u8>)
        ensures
            r@ == self.table(),
    {
        &self.perm
    }

    /// The table for `seed`: the byte values shuffled by a seeded linear congruential
    /// generator, stored twice.
    pub fn new(seed: u32) -> (r: NoiseGenerator)
        ensures
            r.table() == permutation_for(seed) + permutation_for(seed),
            r.table().len() == 512,
    {
        let mut permutation: Vec<u8> = Vec::new();
        let mut k: u32 = 0;
        while k < 256
            invariant
                k <= 256,
                permutation@ == identity_bytes().take(k as int),
            decreases 256 - k,
        {
            permutation.push(k as u8);
            k = k + 1;
            assert(permutation@ =~= identity_bytes().take(k as int));
        }
        assert(permutation@ =~= identity_bytes());
        let mut state: u32 = seed;
        let mut i: usize = 255;
        while i >= 1
            invariant
                i <= 255,
                permutation@.len() == 256,
                shuffle_down(permutation@, state, i as int) == permutation_for(seed),
            decreases i,
        {
            let ghost prev = state;
            state = state.wrapping_mul(1664525).wrapping_add(1013904223);
            proof {
                lemma_lcg_step(prev);
                lemma_shuffle_step(permutation@, prev, i as int);
            }
            let j = (state as usize) % (i + 1);
            let ghost old_perm = permutation@;
            let a = permutation[i];
            let b = permutation[j];
            permutation.set(i, b);
            permutation.set(j, a);
            assert(permutation@ =~= swapped(old_perm, i as int, j as int));
            i = i - 1;
        }
        let mut p: Vec<u8> = Vec::new();
        let mut n: usize = 0;
        while n < 512
            invariant
                n <= 512,
                permutation@ == permutation_for(seed),
                permutation@.len() == 256,
                p@ == (permutation@ + permutation@).take(n as int),
            decreases 512 - n,
        {
            p.push(permutation[n % 256]);
            n = n + 1;
            assert(p@ =~= (permutation@ + permutation@).take(n as int));
        }
        assert(p@ =~= permutation@ + permutation@);
        NoiseGenerator { perm: p }
    }
}

} // verus!
