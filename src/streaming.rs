use vstd::prelude::*;
use crate::keys::{AnyKey, BlockId, ChunkKey, LodKey, CHUNK_SIZE, covers};
use crate::terrain::MAX_RESOLUTION;

verus! {

pub open spec fn pow2(n: nat) -> nat
    decreases n,
{
    if n == 0 {
        1
    } else {
        2 * pow2((n - 1) as nat)
    }
}

proof fn lemma_pow2_positive(n: nat)
    ensures
        pow2(n) >= 1,
    decreases n,
{
    if n > 0 {
        lemma_pow2_positive((n - 1) as nat);
    }
}

/// Whether a key is one the streamer may ask for at resolution `res`: a chunk inside the
/// face, or a tile larger than a chunk whose corner lies inside the face.
pub open spec fn leaf_ok(k: AnyKey, res: int) -> bool {
    match k {
        AnyKey::Voxel(c) => c.face < 6 && c.u_idx * CHUNK_SIZE < res && c.v_idx * CHUNK_SIZE < res,
        AnyKey::Lod(l) => l.face < 6 && l.size > CHUNK_SIZE && l.x < res && l.y < res,
    }
}

/// Whether some key of `s[lo..hi]` covers the cell.
pub open spec fn covered(s: Seq<AnyKey>, lo: int, hi: int, face: u8, u: int, v: int) -> bool {
    exists|i: int| lo <= i < hi && #[trigger] covers(s[i], face, u, v)
}

/// Whether every cell a key covers lies in the square node `(face, x, y, size)`.
pub open spec fn within_node(k: AnyKey, face: u8, x: int, y: int, size: int) -> bool {
    match k {
        AnyKey::Voxel(c) => c.face == face && x <= c.u_idx * CHUNK_SIZE && c.u_idx * CHUNK_SIZE
            + CHUNK_SIZE <= x + size && y <= c.v_idx * CHUNK_SIZE && c.v_idx * CHUNK_SIZE
            + CHUNK_SIZE <= y + size,
        AnyKey::Lod(l) => l.face == face && x <= l.x && l.x + l.size <= x + size && y <= l.y && l.y
            + l.size <= y + size,
    }
}

/// Whether the avatar's cell lies in the node.
pub open spec fn holds_avatar(avatar: Option<BlockId>, face: u8, x: int, y: int, size: int) -> bool {
    match avatar {
        Some(p) => p.face == face && x <= p.u < x + size && y <= p.v < y + size,
        None => false,
    }
}

/// The keys `s[lo..hi]` cover each cell of the node inside the face exactly once, lie in
/// the node, and give the avatar's cell to a chunk.
pub open spec fn tiles_node(
    s: Seq<AnyKey>,
    lo: int,
    hi: int,
    face: u8,
    x: int,
    y: int,
    size: int,
    res: int,
    avatar: Option<BlockId>,
) -> bool {
    &&& 0 <= lo <= hi <= s.len()
    &&& forall|i: int| lo <= i < hi ==> leaf_ok(#[trigger] s[i], res) && within_node(s[i], face, x, y, size)
    &&& forall|u: int, v: int|
        x <= u < x + size && y <= v < y + size && u < res && v < res ==> #[trigger] covered(
            s,
            lo,
            hi,
            face,
            u,
            v,
        )
    &&& forall|i: int, j: int, u: int, v: int|
        lo <= i < hi && lo <= j < hi && #[trigger] covers(s[i], face, u, v) && #[trigger] covers(
            s[j],
            face,
            u,
            v,
        ) ==> i == j
    &&& forall|i: int|
        lo <= i < hi && #[trigger] s[i] is Lod ==> !holds_avatar(avatar, face, s[i]->Lod_0.x as int, s[i]->Lod_0.y as int, s[i]->Lod_0.size as int)
}

/// Keys that cover every cell of every face exactly once, and give the avatar's cell to a
/// chunk.
pub open spec fn tiles_planet(s: Seq<AnyKey>, res: int, avatar: Option<BlockId>) -> bool {
    &&& forall|i: int| 0 <= i < s.len() ==> leaf_ok(#[trigger] s[i], res)
    &&& forall|face: u8, u: int, v: int|
        face < 6 && 0 <= u < res && 0 <= v < res ==> #[trigger] covered(s, 0, s.len() as int, face, u, v)
    &&& forall|i: int, j: int, face: u8, u: int, v: int|
        0 <= i < s.len() && 0 <= j < s.len() && #[trigger] covers(s[i], face, u, v)
            && #[trigger] covers(s[j], face, u, v) ==> i == j
    &&& forall|i: int|
        0 <= i < s.len() && (match avatar {
            Some(p) => p.u < res && p.v < res && covers(s[i], p.face, p.u as int, p.v as int),
            None => false,
        }) ==> #[trigger] s[i] is Voxel
}

proof fn lemma_tiles_extend(
    s: Seq<AnyKey>,
    t: Seq<AnyKey>,
    lo: int,
    hi: int,
    face: u8,
    x: int,
    y: int,
    size: int,
    res: int,
    avatar: Option<BlockId>,
)
    requires
        tiles_node(s, lo, hi, face, x, y, size, res, avatar),
        s.len() <= t.len(),
        t.subrange(0, s.len() as int) == s,
    ensures
        tiles_node(t, lo, hi, face, x, y, size, res, avatar),
{
    assert forall|i: int| lo <= i < hi implies t[i] == s[i] by {
        assert(t.subrange(0, s.len() as int)[i] == t[i]);
    }
    assert forall|u: int, v: int|
        x <= u < x + size && y <= v < y + size && u < res && v < res implies #[trigger] covered(
        t,
        lo,
        hi,
        face,
        u,
        v,
    ) by {
        assert(covered(s, lo, hi, face, u, v));
        let i = choose|i: int| lo <= i < hi && #[trigger] covers(s[i], face, u, v);
        assert(covers(t[i], face, u, v));
    }
}

proof fn lemma_covers_within(k: AnyKey, face: u8, x: int, y: int, size: int, f: u8, u: int, v: int)
    requires
        within_node(k, face, x, y, size),
        covers(k, f, u, v),
    ensures
        f == face,
        x <= u < x + size,
        y <= v < y + size,
{
}

proof fn lemma_tiles_combine(
    s: Seq<AnyKey>,
    o0: int,
    o1: int,
    o2: int,
    o3: int,
    o4: int,
    face: u8,
    x: int,
    y: int,
    half: int,
    res: int,
    avatar: Option<BlockId>,
)
    requires
        half > 0,
        tiles_node(s, o0, o1, face, x, y, half, res, avatar),
        tiles_node(s, o1, o2, face, x + half, y, half, res, avatar),
        tiles_node(s, o2, o3, face, x, y + half, half, res, avatar),
        tiles_node(s, o3, o4, face, x + half, y + half, half, res, avatar),
    ensures
        tiles_node(s, o0, o4, face, x, y, 2 * half, res, avatar),
{
    let size = 2 * half;
    assert forall|i: int| o0 <= i < o4 implies leaf_ok(#[trigger] s[i], res) && within_node(
        s[i],
        face,
        x,
        y,
        size,
    ) by {
        if i < o1 {
        } else if i < o2 {
        } else if i < o3 {
        } else {
        }
    }
    assert forall|u: int, v: int|
        x <= u < x + size && y <= v < y + size && u < res && v < res implies #[trigger] covered(
        s,
        o0,
        o4,
        face,
        u,
        v,
    ) by {
        let (a, b) = if u < x + half {
            if v < y + half { (o0, o1) } else { (o2, o3) }
        } else {
            if v < y + half { (o1, o2) } else { (o3, o4) }
        };
        let cx = if u < x + half { x } else { x + half };
        let cy = if v < y + half { y } else { y + half };
        assert(covered(s, a, b, face, u, v));
        let i = choose|i: int| a <= i < b && #[trigger] covers(s[i], face, u, v);
        assert(o0 <= i < o4 && covers(s[i], face, u, v));
    }
    assert forall|i: int, j: int, u: int, v: int|
        o0 <= i < o4 && o0 <= j < o4 && #[trigger] covers(s[i], face, u, v) && #[trigger] covers(
            s[j],
            face,
            u,
            v,
        ) implies i == j by {
        let ci = if i < o1 { 0int } else if i < o2 { 1int } else if i < o3 { 2int } else { 3int };
        let cj = if j < o1 { 0int } else if j < o2 { 1int } else if j < o3 { 2int } else { 3int };
        let xi = if ci == 1 || ci == 3 { x + half } else { x };
        let yi = if ci >= 2 { y + half } else { y };
        let xj = if cj == 1 || cj == 3 { x + half } else { x };
        let yj = if cj >= 2 { y + half } else { y };
        assert(within_node(s[i], face, xi, yi, half));
        assert(within_node(s[j], face, xj, yj, half));
        lemma_covers_within(s[i], face, xi, yi, half, face, u, v);
        lemma_covers_within(s[j], face, xj, yj, half, face, u, v);
        assert(ci == cj);
    }
    assert forall|i: int|
        o0 <= i < o4 && #[trigger] s[i] is Lod implies !holds_avatar(
        avatar,
        face,
        s[i]->Lod_0.x as int,
        s[i]->Lod_0.y as int,
        s[i]->Lod_0.size as int,
    ) by {
        if i < o1 {
        } else if i < o2 {
        } else if i < o3 {
        } else {
        }
    }
}

/// Most coarse-tile jobs started per tick.
pub const LOD_JOBS_PER_TICK: usize = 8;

/// Most chunk jobs admitted per tick.
pub const CHUNK_JOBS_PER_TICK: usize = 4;

/// Most chunk jobs in flight at once.
pub const CHUNK_JOBS_IN_FLIGHT: usize = 12;

/// Most finished tiles uploaded per tick.
pub const LOD_UPLOADS_PER_TICK: usize = 20;

/// Most finished chunks uploaded per tick.
pub const CHUNK_UPLOADS_PER_TICK: usize = 4;

/// Whether a tile and a chunk share a cell.
pub open spec fn lod_overlaps(l: LodKey, c: ChunkKey) -> bool {
    let cx = c.u_idx * CHUNK_SIZE;
    let cy = c.v_idx * CHUNK_SIZE;
    l.face == c.face && l.x < cx + CHUNK_SIZE && l.x + l.size > cx && l.y < cy + CHUNK_SIZE && l.y
        + l.size > cy
}

/// Whether a tile still hides the hole of some chunk that is required but not resident.
pub open spec fn covers_missing(l: LodKey, missing: Seq<ChunkKey>) -> bool {
    exists|i: int| 0 <= i < missing.len() && lod_overlaps(l, #[trigger] missing[i])
}

/// Whether the walk splits a node: larger than a chunk, and holding the avatar or near
/// the viewpoint by `decide`.
pub open spec fn splits(
    face: u8,
    x: int,
    y: int,
    size: int,
    avatar: Option<BlockId>,
    decide: spec_fn(u8, u32, u32, u32) -> bool,
) -> bool {
    size > CHUNK_SIZE && (holds_avatar(avatar, face, x, y, size) || decide(
        face,
        x as u32,
        y as u32,
        size as u32,
    ))
}

/// The leaves of the quadtree node `(face, x, y, size)` in walk order: nothing for a node
/// outside the face; the leaves of the four quadrants (low u and v first) for a node that
/// splits; otherwise the node itself, as a chunk when chunk-sized and as a tile if larger.
pub open spec fn quad_leaves(
    face: u8,
    x: int,
    y: int,
    size: int,
    res: int,
    avatar: Option<BlockId>,
    decide: spec_fn(u8, u32, u32, u32) -> bool,
) -> Seq<AnyKey>
    decreases size,
{
    if size <= 0 || x >= res || y >= res {
        Seq::empty()
    } else if splits(face, x, y, size, avatar, decide) {
        let h = size / 2;
        quad_leaves(face, x, y, h, res, avatar, decide) + quad_leaves(
            face,
            x + h,
            y,
            h,
            res,
            avatar,
            decide,
        ) + quad_leaves(face, x, y + h, h, res, avatar, decide) + quad_leaves(
            face,
            x + h,
            y + h,
            h,
            res,
            avatar,
            decide,
        )
    } else if size <= CHUNK_SIZE {
        seq![AnyKey::Voxel(ChunkKey { face, u_idx: (x / 32) as u32, v_idx: (y / 32) as u32 })]
    } else {
        seq![AnyKey::Lod(LodKey { face, x: x as u32, y: y as u32, size: size as u32 })]
    }
}

/// The least chunk size times a power of two, from `s` upward, that reaches `res`.
pub open spec fn root_from(s: int, res: int) -> int
    decreases if res > s { res - s } else { 0 },
{
    if s >= res || s <= 0 {
        s
    } else {
        root_from(2 * s, res)
    }
}

/// The leaves of the six face quadtrees, face 0 first.
pub open spec fn planet_leaves(
    res: int,
    avatar: Option<BlockId>,
    decide: spec_fn(u8, u32, u32, u32) -> bool,
    faces: int,
) -> Seq<AnyKey>
    decreases faces,
{
    if faces <= 0 {
        Seq::empty()
    } else {
        planet_leaves(res, avatar, decide, faces - 1) + quad_leaves(
            (faces - 1) as u8,
            0,
            0,
            root_from(CHUNK_SIZE as int, res),
            res,
            avatar,
            decide,
        )
    }
}

/// Whether `decide` gives what the closure `near` returns.
pub open spec fn agrees<F: Fn(u8, u32, u32, u32) -> bool>(
    near: &F,
    decide: spec_fn(u8, u32, u32, u32) -> bool,
) -> bool {
    forall|f: u8, a: u32, b: u32, c: u32, r: bool|
        #[trigger] near.ensures((f, a, b, c), r) ==> r == decide(f, a, b, c)
}

/// The scheduler that decides which chunks and tiles must exist around the viewpoint.
pub struct LodStreamer;

impl LodStreamer {
    /// Side of the root of each face's quadtree: the least power of two times a chunk
    /// that reaches the resolution.
    pub fn root_size(res: u32) -> (r: u32)
        requires
            1 <= res <= MAX_RESOLUTION,
        ensures
            exists|k: nat| r == CHUNK_SIZE * pow2(k),
            r == root_from(CHUNK_SIZE as int, res as int),
            r >= res,
            r < 2 * res || r == CHUNK_SIZE,
            r <= 2 * MAX_RESOLUTION,
    {
        let mut s: u32 = CHUNK_SIZE;
        let ghost mut k: nat = 0;
        while s < res
            invariant
                1 <= res <= MAX_RESOLUTION,
                s == CHUNK_SIZE * pow2(k),
                CHUNK_SIZE <= s,
                s < 2 * res || s == CHUNK_SIZE,
                root_from(s as int, res as int) == root_from(CHUNK_SIZE as int, res as int),
            decreases 2 * res - s,
        {
            s = s * 2;
            proof {
                k = k + 1;
            }
        }
        s
    }

    /// The detail multiplier of a node: larger for smaller nodes, so that detail
    /// rises in steps toward the viewpoint.
    pub fn lod_factor(size: u32) -> (r: u32)
        ensures
            r == (if size <= CHUNK_SIZE {
                18u32
            } else if size <= CHUNK_SIZE * 2 {
                12
            } else if size <= CHUNK_SIZE * 4 {
                7
            } else if size <= CHUNK_SIZE * 8 {
                5
            } else {
                4
            }),
    {
        if size <= CHUNK_SIZE {
            18
        } else if size <= CHUNK_SIZE * 2 {
            12
        } else if size <= CHUNK_SIZE * 4 {
            7
        } else if size <= CHUNK_SIZE * 8 {
            5
        } else {
            4
        }
    }

    /// Whether the avatar's cell lies in the node.
    pub fn node_holds_avatar(avatar: Option<BlockId>, face: u8, x: u32, y: u32, size: u32) -> (r: bool)
        ensures
            r == holds_avatar(avatar, face, x as int, y as int, size as int),
    {
        match avatar {
            Some(p) => p.face == face && x <= p.u && (p.u as u64) < x as u64 + size as u64 && y
                <= p.v && (p.v as u64) < y as u64 + size as u64,
            None => false,
        }
    }

    /// Walks the quadtree node `(face, x, y, size)`: a node larger than a chunk splits
    /// when it holds the avatar or when `near` says the viewpoint is within its split
    /// distance; any other node becomes a required chunk (chunk-sized) or tile.
    fn process_quadtree<F: Fn(u8, u32, u32, u32) -> bool>(
        face: u8,
        x: u32,
        y: u32,
        size: u32,
        res: u32,
        avatar: Option<BlockId>,
        near: &F,
        out: &mut Vec<AnyKey>,
        Ghost(level): Ghost<nat>,
    )
        requires
            face < 6,
            1 <= res <= MAX_RESOLUTION,
            size == CHUNK_SIZE * pow2(level),
            size <= 2 * MAX_RESOLUTION,
            x % CHUNK_SIZE == 0,
            y % CHUNK_SIZE == 0,
            x <= 4 * MAX_RESOLUTION,
            y <= 4 * MAX_RESOLUTION,
            forall|f: u8, a: u32, b: u32, c: u32| near.requires((f, a, b, c)),
        ensures
            final(out)@.len() >= old(out)@.len(),
            final(out)@.subrange(0, old(out)@.len() as int) == old(out)@,
            tiles_node(
                final(out)@,
                old(out)@.len() as int,
                final(out)@.len() as int,
                face,
                x as int,
                y as int,
                size as int,
                res as int,
                avatar,
            ),
            forall|decide: spec_fn(u8, u32, u32, u32) -> bool|
                agrees(near, decide) ==> final(out)@ == old(out)@ + #[trigger] quad_leaves(
                    face,
                    x as int,
                    y as int,
                    size as int,
                    res as int,
                    avatar,
                    decide,
                ),
        decreases level,
    {
        let ghost o0 = out@.len() as int;
        let ghost s0 = out@;
        proof {
            lemma_pow2_positive(level);
        }
        if x >= res || y >= res {
            assert(out@.subrange(0, o0) =~= s0);
            assert forall|decide: spec_fn(u8, u32, u32, u32) -> bool|
                agrees(near, decide) implies out@ == s0 + #[trigger] quad_leaves(
                face,
                x as int,
                y as int,
                size as int,
                res as int,
                avatar,
                decide,
            ) by {
                assert(out@ =~= s0 + quad_leaves(face, x as int, y as int, size as int, res as int, avatar, decide));
            }
            return;
        }
        let inside = Self::node_holds_avatar(avatar, face, x, y, size);
        let split = if size > CHUNK_SIZE {
            if inside {
                true
            } else {
                near(face, x, y, size)
            }
        } else {
            false
        };
        assert forall|decide: spec_fn(u8, u32, u32, u32) -> bool|
            agrees(near, decide) implies split == #[trigger] splits(face, x as int, y as int, size as int, avatar, decide) by {
            if size > CHUNK_SIZE && !inside {
                assert(near.ensures((face, x, y, size), split));
            }
        }
        if split {
            assert(level > 0) by {
                if level == 0 {
                    assert(pow2(level) == 1);
                }
            }
            let half = size / 2;
            assert(half == CHUNK_SIZE * pow2((level - 1) as nat));
            assert(half % CHUNK_SIZE == 0) by {
                vstd::arithmetic::div_mod::lemma_mod_multiples_basic(
                    pow2((level - 1) as nat) as int,
                    CHUNK_SIZE as int,
                );
            }
            let ghost l1 = (level - 1) as nat;
            Self::process_quadtree(face, x, y, half, res, avatar, near, out, Ghost(l1));
            let ghost s1 = out@;
            Self::process_quadtree(face, x + half, y, half, res, avatar, near, out, Ghost(l1));
            let ghost s2 = out@;
            Self::process_quadtree(face, x, y + half, half, res, avatar, near, out, Ghost(l1));
            let ghost s3 = out@;
            Self::process_quadtree(face, x + half, y + half, half, res, avatar, near, out, Ghost(l1));
            proof {
                let s4 = out@;
                assert(s4.subrange(0, s3.len() as int) == s3);
                assert(s4.subrange(0, s2.len() as int) =~= s2) by {
                    assert(s3.subrange(0, s2.len() as int) == s2);
                }
                assert(s4.subrange(0, s1.len() as int) =~= s1) by {
                    assert(s3.subrange(0, s2.len() as int) == s2);
                    assert(s2.subrange(0, s1.len() as int) == s1);
                }
                assert(s4.subrange(0, o0) =~= s0) by {
                    assert(s3.subrange(0, s2.len() as int) == s2);
                    assert(s2.subrange(0, s1.len() as int) == s1);
                    assert(s1.subrange(0, o0) == s0);
                }
                lemma_tiles_extend(s1, s4, o0, s1.len() as int, face, x as int, y as int, half as int, res as int, avatar);
                lemma_tiles_extend(s2, s4, s1.len() as int, s2.len() as int, face, x + half, y as int, half as int, res as int, avatar);
                lemma_tiles_extend(s3, s4, s2.len() as int, s3.len() as int, face, x as int, y + half, half as int, res as int, avatar);
                lemma_tiles_combine(s4, o0, s1.len() as int, s2.len() as int, s3.len() as int, s4.len() as int, face, x as int, y as int, half as int, res as int, avatar);
                assert forall|decide: spec_fn(u8, u32, u32, u32) -> bool|
                    agrees(near, decide) implies s4 == s0 + #[trigger] quad_leaves(
                    face,
                    x as int,
                    y as int,
                    size as int,
                    res as int,
                    avatar,
                    decide,
                ) by {
                    assert(splits(face, x as int, y as int, size as int, avatar, decide));
                    let h = half as int;
                    let q1 = quad_leaves(face, x as int, y as int, h, res as int, avatar, decide);
                    let q2 = quad_leaves(face, x + h, y as int, h, res as int, avatar, decide);
                    let q3 = quad_leaves(face, x as int, y + h, h, res as int, avatar, decide);
                    let q4 = quad_leaves(face, x + h, y + h, h, res as int, avatar, decide);
                    assert(s1 == s0 + q1);
                    assert(s2 == s1 + q2);
                    assert(s3 == s2 + q3);
                    assert(s4 == s3 + q4);
                    assert(quad_leaves(face, x as int, y as int, size as int, res as int, avatar, decide)
                        == q1 + q2 + q3 + q4);
                    assert(s4 =~= s0 + (q1 + q2 + q3 + q4));
                }
            }
        } else if size <= CHUNK_SIZE {
            let key = ChunkKey { face, u_idx: x / CHUNK_SIZE, v_idx: y / CHUNK_SIZE };
            out.push(AnyKey::Voxel(key));
            proof {
                assert(out@.subrange(0, o0) =~= s0);
                assert forall|decide: spec_fn(u8, u32, u32, u32) -> bool|
                    agrees(near, decide) implies out@ == s0 + #[trigger] quad_leaves(
                    face,
                    x as int,
                    y as int,
                    size as int,
                    res as int,
                    avatar,
                    decide,
                ) by {
                    assert(!splits(face, x as int, y as int, size as int, avatar, decide));
                    assert(out@ =~= s0 + seq![AnyKey::Voxel(key)]);
                }
                assert(key.u_idx * CHUNK_SIZE == x && key.v_idx * CHUNK_SIZE == y);
                assert forall|u: int, v: int|
                    x <= u < x + size && y <= v < y + size && u < res && v < res implies #[trigger] covered(
                    out@,
                    o0,
                    out@.len() as int,
                    face,
                    u,
                    v,
                ) by {
                    assert(covers(out@[o0], face, u, v));
                }
            }
        } else {
            out.push(AnyKey::Lod(LodKey { face, x, y, size }));
            proof {
                assert(out@.subrange(0, o0) =~= s0);
                assert forall|decide: spec_fn(u8, u32, u32, u32) -> bool|
                    agrees(near, decide) implies out@ == s0 + #[trigger] quad_leaves(
                    face,
                    x as int,
                    y as int,
                    size as int,
                    res as int,
                    avatar,
                    decide,
                ) by {
                    assert(!splits(face, x as int, y as int, size as int, avatar, decide));
                    assert(out@ =~= s0 + seq![AnyKey::Lod(LodKey { face, x, y, size })]);
                }
                assert forall|u: int, v: int|
                    x <= u < x + size && y <= v < y + size && u < res && v < res implies #[trigger] covered(
                    out@,
                    o0,
                    out@.len() as int,
                    face,
                    u,
                    v,
                ) by {
                    assert(covers(out@[o0], face, u, v));
                }
            }
        }
    }

    /// The chunks and tiles that must be resident: the leaves of the six face quadtrees,
    /// where `near(face, x, y, size)` says whether the viewpoint is within the split
    /// distance of that node. They are exactly `planet_leaves` for the decisions `near`
    /// makes; together they cover every cell of every face exactly once, and the
    /// avatar's cell always falls to a chunk.
    pub fn required_keys<F: Fn(u8, u32, u32, u32) -> bool>(
        res: u32,
        avatar: Option<BlockId>,
        near: &F,
    ) -> (r: Vec<AnyKey>)
        requires
            1 <= res <= MAX_RESOLUTION,
            forall|f: u8, a: u32, b: u32, c: u32| near.requires((f, a, b, c)),
        ensures
            tiles_planet(r@, res as int, avatar),
            forall|decide: spec_fn(u8, u32, u32, u32) -> bool|
                agrees(near, decide) ==> r@ == #[trigger] planet_leaves(res as int, avatar, decide, 6),
    {
        let root = Self::root_size(res);
        let ghost level = choose|k: nat| root == CHUNK_SIZE * pow2(k);
        let mut out: Vec<AnyKey> = Vec::new();
        let ghost mut bounds: Seq<int> = seq![0int];
        assert forall|decide: spec_fn(u8, u32, u32, u32) -> bool|
            agrees(near, decide) implies out@ == #[trigger] planet_leaves(res as int, avatar, decide, 0) by {
            assert(out@ =~= planet_leaves(res as int, avatar, decide, 0));
        }
        let mut face: u8 = 0;
        while face < 6
            invariant
                face <= 6,
                1 <= res <= MAX_RESOLUTION,
                root == CHUNK_SIZE * pow2(level),
                root == root_from(CHUNK_SIZE as int, res as int),
                forall|decide: spec_fn(u8, u32, u32, u32) -> bool|
                    agrees(near, decide) ==> out@ == #[trigger] planet_leaves(
                        res as int,
                        avatar,
                        decide,
                        face as int,
                    ),
                root >= res,
                root <= 2 * MAX_RESOLUTION,
                forall|f: u8, a: u32, b: u32, c: u32| near.requires((f, a, b, c)),
                bounds.len() == face + 1,
                bounds[0] == 0,
                bounds[face as int] == out@.len(),
                forall|f: int| 0 <= f < face ==> #[trigger] bounds[f] <= bounds[f + 1],
                forall|f: int|
                    0 <= f < face ==> tiles_node(
                        out@,
                        #[trigger] bounds[f],
                        bounds[f + 1],
                        f as u8,
                        0,
                        0,
                        root as int,
                        res as int,
                        avatar,
                    ),
            decreases 6 - face,
        {
            let ghost before = out@;
            Self::process_quadtree(face, 0, 0, root, res, avatar, near, &mut out, Ghost(level));
            proof {
                assert forall|f: int| 0 <= f < face implies tiles_node(
                    out@,
                    #[trigger] bounds[f],
                    bounds[f + 1],
                    f as u8,
                    0,
                    0,
                    root as int,
                    res as int,
                    avatar,
                ) by {
                    lemma_tiles_extend(before, out@, bounds[f], bounds[f + 1], f as u8, 0, 0, root as int, res as int, avatar);
                }
                bounds = bounds.push(out@.len() as int);
                assert forall|decide: spec_fn(u8, u32, u32, u32) -> bool|
                    agrees(near, decide) implies out@ == #[trigger] planet_leaves(
                        res as int,
                        avatar,
                        decide,
                        face + 1,
                    ) by {
                    assert(before == planet_leaves(res as int, avatar, decide, face as int));
                    assert(out@ == before + quad_leaves(face, 0, 0, root as int, res as int, avatar, decide));
                }
            }
            face = face + 1;
        }
        proof {
            let s = out@;
            assert forall|i: int| 0 <= i < s.len() implies leaf_ok(#[trigger] s[i], res as int) by {
                Self::lemma_find_range(bounds, i, 6);
                let f = choose|f: int| 0 <= f < 6 && #[trigger] bounds[f] <= i < bounds[f + 1];
                assert(tiles_node(s, bounds[f], bounds[f + 1], f as u8, 0, 0, root as int, res as int, avatar));
            }
            assert forall|f: u8, u: int, v: int|
                f < 6 && 0 <= u < res && 0 <= v < res implies #[trigger] covered(s, 0, s.len() as int, f, u, v) by {
                assert(tiles_node(s, bounds[f as int], bounds[f + 1], f, 0, 0, root as int, res as int, avatar));
                assert(covered(s, bounds[f as int], bounds[f + 1], f, u, v));
                let i = choose|i: int| bounds[f as int] <= i < bounds[f + 1] && #[trigger] covers(s[i], f, u, v);
                assert(0 <= i < s.len() && covers(s[i], f, u, v));
            }
            assert forall|i: int, j: int, f: u8, u: int, v: int|
                0 <= i < s.len() && 0 <= j < s.len() && #[trigger] covers(s[i], f, u, v)
                    && #[trigger] covers(s[j], f, u, v) implies i == j by {
                Self::lemma_find_range(bounds, i, 6);
                Self::lemma_find_range(bounds, j, 6);
                let fi = choose|g: int| 0 <= g < 6 && #[trigger] bounds[g] <= i < bounds[g + 1];
                let fj = choose|g: int| 0 <= g < 6 && #[trigger] bounds[g] <= j < bounds[g + 1];
                assert(tiles_node(s, bounds[fi], bounds[fi + 1], fi as u8, 0, 0, root as int, res as int, avatar));
                assert(tiles_node(s, bounds[fj], bounds[fj + 1], fj as u8, 0, 0, root as int, res as int, avatar));
                lemma_covers_within(s[i], fi as u8, 0, 0, root as int, f, u, v);
                lemma_covers_within(s[j], fj as u8, 0, 0, root as int, f, u, v);
            }
            assert forall|i: int|
                0 <= i < s.len() && (match avatar {
                    Some(p) => p.u < res && p.v < res && covers(s[i], p.face, p.u as int, p.v as int),
                    None => false,
                }) implies #[trigger] s[i] is Voxel by {
                Self::lemma_find_range(bounds, i, 6);
                let f = choose|g: int| 0 <= g < 6 && #[trigger] bounds[g] <= i < bounds[g + 1];
                assert(tiles_node(s, bounds[f], bounds[f + 1], f as u8, 0, 0, root as int, res as int, avatar));
                let p = avatar->Some_0;
                lemma_covers_within(s[i], f as u8, 0, 0, root as int, p.face, p.u as int, p.v as int);
            }
        }
        out
    }

    proof fn lemma_find_range(bounds: Seq<int>, i: int, n: int)
        requires
            0 <= n < bounds.len(),
            bounds[0] == 0,
            0 <= i < bounds[n],
            forall|f: int| 0 <= f < n ==> #[trigger] bounds[f] <= bounds[f + 1],
        ensures
            exists|f: int| 0 <= f < n && #[trigger] bounds[f] <= i < bounds[f + 1],
        decreases n,
    {
        if n > 0 {
            if i >= bounds[n - 1] {
                assert(bounds[n - 1] <= i < bounds[n]);
            } else {
                Self::lemma_find_range(bounds, i, n - 1);
                let f = choose|f: int| 0 <= f < n - 1 && #[trigger] bounds[f] <= i < bounds[f + 1];
                assert(0 <= f < n && bounds[f] <= i < bounds[f + 1]);
            }
        }
    }

    /// Whether a tile and a chunk share a cell.
    pub fn lod_overlaps_chunk(l: LodKey, c: ChunkKey) -> (r: bool)
        ensures
            r == lod_overlaps(l, c),
    {
        let cx = c.u_idx as u64 * CHUNK_SIZE as u64;
        let cy = c.v_idx as u64 * CHUNK_SIZE as u64;
        l.face == c.face && (l.x as u64) < cx + CHUNK_SIZE as u64 && l.x as u64 + l.size as u64 > cx
            && (l.y as u64) < cy + CHUNK_SIZE as u64 && l.y as u64 + l.size as u64 > cy
    }

    /// Whether a tile must stay while chunks it overlaps are still missing.
    pub fn lod_still_needed(l: LodKey, missing: &Vec<ChunkKey>) -> (r: bool)
        ensures
            r == covers_missing(l, missing@),
    {
        let mut i: usize = 0;
        while i < missing.len()
            invariant
                i <= missing@.len(),
                forall|j: int| 0 <= j < i ==> !lod_overlaps(l, #[trigger] missing@[j]),
            decreases missing@.len() - i,
        {
            if Self::lod_overlaps_chunk(l, missing[i]) {
                return true;
            }
            i = i + 1;
        }
        false
    }

    /// The required chunks that are not resident yet.
    pub fn missing_chunks(required: &Vec<AnyKey>, resident: &Vec<ChunkKey>) -> (r: Vec<ChunkKey>)
        ensures
            forall|c: ChunkKey|
                #[trigger] r@.contains(c) <==> (required@.contains(AnyKey::Voxel(c))
                    && !resident@.contains(c)),
    {
        let mut out: Vec<ChunkKey> = Vec::new();
        let mut i: usize = 0;
        while i < required.len()
            invariant
                i <= required@.len(),
                forall|c: ChunkKey|
                    #[trigger] out@.contains(c) <==> ((exists|j: int|
                        0 <= j < i && required@[j] == AnyKey::Voxel(c)) && !resident@.contains(c)),
            decreases required@.len() - i,
        {
            let ghost before = out@;
            match required[i] {
                AnyKey::Voxel(c) => {
                    if !Self::holds_chunk(resident, c) {
                        out.push(c);
                    }
                },
                AnyKey::Lod(_) => {},
            }
            proof {
                assert forall|c: ChunkKey|
                    #[trigger] out@.contains(c) <==> ((exists|j: int|
                        0 <= j < i + 1 && required@[j] == AnyKey::Voxel(c)) && !resident@.contains(c)) by {
                    if out@.contains(c) && !before.contains(c) {
                        assert(out@[out@.len() - 1] == c);
                        assert(required@[i as int] == AnyKey::Voxel(c));
                    }
                    if before.contains(c) {
                        let j = choose|j: int| 0 <= j < before.len() && before[j] == c;
                        assert(out@[j] == c);
                    }
                    if exists|j: int| 0 <= j < i + 1 && required@[j] == AnyKey::Voxel(c) {
                        let j = choose|j: int| 0 <= j < i + 1 && required@[j] == AnyKey::Voxel(c);
                        if j == i && !resident@.contains(c) {
                            assert(out@[out@.len() - 1] == c);
                        }
                    }
                }
            }
            i = i + 1;
        }
        out
    }

    fn holds_chunk(v: &Vec<ChunkKey>, c: ChunkKey) -> (r: bool)
        ensures
            r == v@.contains(c),
    {
        let mut i: usize = 0;
        while i < v.len()
            invariant
                i <= v@.len(),
                forall|j: int| 0 <= j < i ==> v@[j] != c,
            decreases v@.len() - i,
        {
            if v[i] == c {
                return true;
            }
            i = i + 1;
        }
        false
    }

    fn holds_key(v: &Vec<AnyKey>, k: AnyKey) -> (r: bool)
        ensures
            r == v@.contains(k),
    {
        let mut i: usize = 0;
        while i < v.len()
            invariant
                i <= v@.len(),
                forall|j: int| 0 <= j < i ==> v@[j] != k,
            decreases v@.len() - i,
        {
            if v[i] == k {
                return true;
            }
            i = i + 1;
        }
        false
    }

    /// The resident tiles to retire: those no longer required that cover no missing chunk.
    pub fn lods_to_retire(
        resident: &Vec<LodKey>,
        required: &Vec<AnyKey>,
        missing: &Vec<ChunkKey>,
    ) -> (r: Vec<LodKey>)
        ensures
            forall|l: LodKey|
                #[trigger] r@.contains(l) <==> (resident@.contains(l) && !required@.contains(
                    AnyKey::Lod(l),
                ) && !covers_missing(l, missing@)),
    {
        let mut out: Vec<LodKey> = Vec::new();
        let mut i: usize = 0;
        while i < resident.len()
            invariant
                i <= resident@.len(),
                forall|l: LodKey|
                    #[trigger] out@.contains(l) <==> ((exists|j: int| 0 <= j < i && resident@[j] == l)
                        && !required@.contains(AnyKey::Lod(l)) && !covers_missing(l, missing@)),
            decreases resident@.len() - i,
        {
            let l = resident[i];
            let ghost before = out@;
            if !Self::holds_key(required, AnyKey::Lod(l)) && !Self::lod_still_needed(l, missing) {
                out.push(l);
            }
            proof {
                assert forall|x: LodKey|
                    #[trigger] out@.contains(x) <==> ((exists|j: int| 0 <= j < i + 1 && resident@[j] == x)
                        && !required@.contains(AnyKey::Lod(x)) && !covers_missing(x, missing@)) by {
                    if out@.contains(x) && !before.contains(x) {
                        assert(out@[out@.len() - 1] == x);
                        assert(resident@[i as int] == x);
                    }
                    if before.contains(x) {
                        let j = choose|j: int| 0 <= j < before.len() && before[j] == x;
                        assert(out@[j] == x);
                    }
                    if exists|j: int| 0 <= j < i + 1 && resident@[j] == x {
                        let j = choose|j: int| 0 <= j < i + 1 && resident@[j] == x;
                        if j == i && !required@.contains(AnyKey::Lod(x)) && !covers_missing(x, missing@) {
                            assert(out@[out@.len() - 1] == x);
                        }
                    }
                }
            }
            i = i + 1;
        }
        proof {
            assert forall|l: LodKey|
                #[trigger] out@.contains(l) <==> (resident@.contains(l) && !required@.contains(
                    AnyKey::Lod(l),
                ) && !covers_missing(l, missing@)) by {
                if resident@.contains(l) {
                    let j = choose|j: int| 0 <= j < resident@.len() && resident@[j] == l;
                }
            }
        }
        out
    }

    /// How many queued chunks may start now: at most four per tick, and never more than
    /// twelve in flight.
    pub fn chunk_admission(in_flight: usize, queued: usize) -> (r: usize)
        ensures
            r == (if in_flight >= CHUNK_JOBS_IN_FLIGHT {
                0
            } else {
                let room = (CHUNK_JOBS_IN_FLIGHT - in_flight) as usize;
                let cap = if room < CHUNK_JOBS_PER_TICK { room } else { CHUNK_JOBS_PER_TICK };
                if queued < cap { queued } else { cap }
            }),
            in_flight + r <= CHUNK_JOBS_IN_FLIGHT || r == 0,
            r <= CHUNK_JOBS_PER_TICK,
            r <= queued,
    {
        if in_flight >= CHUNK_JOBS_IN_FLIGHT {
            0
        } else {
            let room = CHUNK_JOBS_IN_FLIGHT - in_flight;
            let cap = if room < CHUNK_JOBS_PER_TICK { room } else { CHUNK_JOBS_PER_TICK };
            if queued < cap { queued } else { cap }
        }
    }
}

} // verus!
