use vstd::prelude::*;
use crate::keys::{BlockId, ChunkKey, CHUNK_SIZE, chunk_of};
use crate::terrain::{PlanetTerrain, MAX_RESOLUTION, MIN_RESOLUTION};

verus! {

/// Layers below this one form the unbreakable core.
pub const CORE_LAYERS: u32 = 6;

/// The mined and placed sets, in that order.
pub type EditSets = (Set<BlockId>, Set<BlockId>);

/// The edit sets after `add_block(id)`: a mined block is restored, anything else placed.
pub open spec fn edits_after_add(e: EditSets, id: BlockId) -> EditSets {
    if e.0.contains(id) {
        (e.0.remove(id), e.1)
    } else {
        (e.0, e.1.insert(id))
    }
}

/// Whether `remove_block` leaves `id` alone because it lies in the core.
pub open spec fn protected(id: BlockId, has_core: bool) -> bool {
    has_core && id.layer < CORE_LAYERS
}

/// The edit sets after `remove_block(id)`: the core is left alone, a placed block is
/// taken back, and any other block inside the shell is mined.
pub open spec fn edits_after_remove(e: EditSets, id: BlockId, res: nat, has_core: bool) -> EditSets {
    if protected(id, has_core) {
        e
    } else if e.1.contains(id) {
        (e.0, e.1.remove(id))
    } else if id.layer < res {
        (e.0.insert(id), e.1)
    } else {
        e
    }
}

/// The resolution after one step of growing or shrinking.
pub open spec fn next_resolution(res: int, grow: bool) -> int {
    if grow {
        let scaled = res * 6 / 5;
        let at_least = if scaled > res + 1 { scaled } else { res + 1 };
        if at_least < MAX_RESOLUTION { at_least } else { MAX_RESOLUTION as int }
    } else {
        let scaled = res * 5 / 6;
        if scaled > MIN_RESOLUTION { scaled } else { MIN_RESOLUTION as int }
    }
}

/// Index of `id` in `v`, if it is there.
pub(crate) fn position_of(v: &Vec<BlockId>, id: BlockId) -> (r: Option<usize>)
    ensures
        match r {
            Some(j) => j < v@.len() && v@[j as int] == id,
            None => !v@.contains(id),
        },
{
    let mut j: usize = 0;
    while j < v.len()
        invariant
            j <= v@.len(),
            forall|k: int| 0 <= k < j ==> v@[k] != id,
        decreases v@.len() - j,
    {
        if v[j] == id {
            return Some(j);
        }
        j = j + 1;
    }
    None
}

proof fn lemma_remove_unique(s: Seq<BlockId>, j: int)
    requires
        s.no_duplicates(),
        0 <= j < s.len(),
    ensures
        s.remove(j).no_duplicates(),
        s.remove(j).to_set() == s.to_set().remove(s[j]),
{
    let t = s.remove(j);
    assert forall|a: int, b: int| 0 <= a < t.len() && 0 <= b < t.len() && a != b implies t[a]
        != t[b] by {
        let a0 = if a < j { a } else { a + 1 };
        let b0 = if b < j { b } else { b + 1 };
        assert(t[a] == s[a0] && t[b] == s[b0]);
    }
    assert forall|x: BlockId| t.contains(x) <==> s.contains(x) && x != s[j] by {
        if t.contains(x) {
            let a = choose|a: int| 0 <= a < t.len() && t[a] == x;
            let a0 = if a < j { a } else { a + 1 };
            assert(s[a0] == x);
        }
        if s.contains(x) && x != s[j] {
            let a0 = choose|a0: int| 0 <= a0 < s.len() && s[a0] == x;
            let a = if a0 < j { a0 } else { a0 - 1 };
            assert(t[a] == x);
        }
    }
    assert(t.to_set() =~= s.to_set().remove(s[j]));
}

pub(crate) proof fn lemma_push_unique(s: Seq<BlockId>, x: BlockId)
    requires
        s.no_duplicates(),
        !s.contains(x),
    ensures
        s.push(x).no_duplicates(),
        s.push(x).to_set() == s.to_set().insert(x),
{
    let t = s.push(x);
    assert forall|y: BlockId| t.contains(y) <==> s.contains(y) || y == x by {
        if t.contains(y) {
            let a = choose|a: int| 0 <= a < t.len() && t[a] == y;
            if a < s.len() {
                assert(s[a] == y);
            }
        }
        if s.contains(y) {
            let a = choose|a: int| 0 <= a < s.len() && s[a] == y;
            assert(t[a] == y);
        }
        if y == x {
            assert(t[s.len() as int] == y);
        }
    }
    assert(t.to_set() =~= s.to_set().insert(x));
}

/// The sparse edits of one chunk: blocks dug out of the natural terrain and blocks
/// added to it.
#[derive(Clone)]
pub struct ChunkMods {
    mined: Vec<BlockId>,
    placed: Vec<BlockId>,
}

impl ChunkMods {
    pub closed spec fn mined_seq(&self) -> Seq<BlockId> {
        self.mined@
    }

    pub closed spec fn placed_seq(&self) -> Seq<BlockId> {
        self.placed@
    }

    pub open spec fn mined_set(&self) -> Set<BlockId> {
        self.mined_seq().to_set()
    }

    pub open spec fn placed_set(&self) -> Set<BlockId> {
        self.placed_seq().to_set()
    }

    /// Each list holds an id once, and no id is both mined and placed.
    pub open spec fn wf(&self) -> bool {
        &&& self.mined_seq().no_duplicates()
        &&& self.placed_seq().no_duplicates()
        &&& self.mined_set().disjoint(self.placed_set())
    }

    pub fn new() -> (r: ChunkMods)
        ensures
            r.wf(),
            r.mined_seq() == Seq::<BlockId>::empty(),
            r.placed_seq() == Seq::<BlockId>::empty(),
    {
        let r = ChunkMods { mined: Vec::new(), placed: Vec::new() };
        assert(r.mined_set() =~= Set::empty());
        assert(r.placed_set() =~= Set::empty());
        r
    }

    /// The mined blocks, each once.
    pub fn mined(&self) -> (r: &Vec<BlockId>)
        ensures
            r@ == self.mined_seq(),
    {
        &self.mined
    }

    /// The placed blocks, each once.
    pub fn placed(&self) -> (r: &Vec<BlockId>)
        ensures
            r@ == self.placed_seq(),
    {
        &self.placed
    }
}

/// The world: a heightmap and a sparse overlay of edits, grouped by chunk.
#[derive(Clone)]
pub struct PlanetData {
    chunks: Vec<(ChunkKey, ChunkMods)>,
    resolution: u32,
    has_core: bool,
    terrain: PlanetTerrain,
}

impl PlanetData {
    pub closed spec fn entries(&self) -> Seq<(ChunkKey, ChunkMods)> {
        self.chunks@
    }

    pub closed spec fn res(&self) -> nat {
        self.resolution as nat
    }

    pub closed spec fn keeps_core(&self) -> bool {
        self.has_core
    }

    pub closed spec fn land(&self) -> PlanetTerrain {
        self.terrain
    }

    /// Every block that some chunk records as mined.
    pub open spec fn mined_set(&self) -> Set<BlockId> {
        Set::new(
            |id: BlockId|
                exists|i: int|
                    0 <= i < self.entries().len() && #[trigger] self.entries()[i].1.mined_set().contains(
                        id,
                    ),
        )
    }

    /// Every block that some chunk records as placed.
    pub open spec fn placed_set(&self) -> Set<BlockId> {
        Set::new(
            |id: BlockId|
                exists|i: int|
                    0 <= i < self.entries().len() && #[trigger] self.entries()[i].1.placed_set().contains(
                        id,
                    ),
        )
    }

    pub open spec fn edits(&self) -> EditSets {
        (self.mined_set(), self.placed_set())
    }

    /// The heightmap matches the resolution; each chunk appears once, holds only its own
    /// blocks, and mines only blocks inside the shell.
    pub open spec fn wf(&self) -> bool {
        &&& self.land().wf()
        &&& self.land().res() == self.res()
        &&& forall|i: int| 0 <= i < self.entries().len() ==> (#[trigger] self.entries()[i]).1.wf()
        &&& forall|i: int, id: BlockId|
            0 <= i < self.entries().len() && (#[trigger] self.entries()[i].1.mined_set().contains(id)
                || self.entries()[i].1.placed_set().contains(id)) ==> chunk_of(id)
                == self.entries()[i].0
        &&& forall|i: int, id: BlockId|
            0 <= i < self.entries().len() && #[trigger] self.entries()[i].1.mined_set().contains(id)
                ==> id.layer < self.res()
        &&& forall|i: int, j: int|
            0 <= i < self.entries().len() && 0 <= j < self.entries().len() && i != j ==> (
            #[trigger] self.entries()[i]).0 != (#[trigger] self.entries()[j]).0
    }

    /// Whether the block is solid: placed blocks are, mined ones are not, and any other
    /// block is solid up to the natural height of its column.
    pub open spec fn solid_at(&self, id: BlockId) -> bool {
        if self.placed_set().contains(id) {
            true
        } else if self.mined_set().contains(id) {
            false
        } else {
            id.layer <= self.land().height_at(id.face as int, id.u as int, id.v as int)
        }
    }

    /// A world over `terrain` with no edits and with its core protected.
    pub fn new(terrain: PlanetTerrain) -> (r: PlanetData)
        requires
            terrain.wf(),
        ensures
            r.wf(),
            r.res() == terrain.res(),
            r.keeps_core(),
            r.land() == terrain,
            r.mined_set() == Set::<BlockId>::empty(),
            r.placed_set() == Set::<BlockId>::empty(),
    {
        let resolution = terrain.resolution();
        let r = PlanetData { chunks: Vec::new(), resolution, has_core: true, terrain };
        assert(r.mined_set() =~= Set::empty());
        assert(r.placed_set() =~= Set::empty());
        r
    }

    pub fn resolution(&self) -> (r: u32)
        ensures
            r == self.res(),
    {
        self.resolution
    }

    pub fn has_core(&self) -> (r: bool)
        ensures
            r == self.keeps_core(),
    {
        self.has_core
    }

    pub fn terrain(&self) -> (r: &PlanetTerrain)
        ensures
            *r == self.land(),
    {
        &self.terrain
    }

    /// The resolution that `resize(grow)` moves to: a fifth more (at least one more,
    /// at most the largest resolution) or a sixth less (at least the smallest).
    pub fn next_resolution(res: u32, grow: bool) -> (r: u32)
        requires
            res <= MAX_RESOLUTION,
        ensures
            r == next_resolution(res as int, grow),
    {
        if grow {
            let scaled = res * 6 / 5;
            let at_least = if scaled > res + 1 { scaled } else { res + 1 };
            if at_least < MAX_RESOLUTION { at_least } else { MAX_RESOLUTION }
        } else {
            let scaled = res * 5 / 6;
            if scaled > MIN_RESOLUTION { scaled } else { MIN_RESOLUTION }
        }
    }

    /// Moves to the next resolution, dropping every edit; `terrain` is the heightmap
    /// generated for the new resolution.
    pub fn resize(&mut self, grow: bool, terrain: PlanetTerrain)
        requires
            old(self).wf(),
            terrain.wf(),
            terrain.res() == next_resolution(old(self).res() as int, grow),
        ensures
            final(self).wf(),
            final(self).res() == next_resolution(old(self).res() as int, grow),
            final(self).keeps_core() == old(self).keeps_core(),
            final(self).land() == terrain,
            final(self).mined_set() == Set::<BlockId>::empty(),
            final(self).placed_set() == Set::<BlockId>::empty(),
    {
        self.resolution = Self::next_resolution(self.resolution, grow);
        self.chunks = Vec::new();
        self.terrain = terrain;
        assert(self.mined_set() =~= Set::empty());
        assert(self.placed_set() =~= Set::empty());
    }

    /// The chunk that owns a block.
    pub fn get_chunk_key(id: BlockId) -> (r: ChunkKey)
        ensures
            r == chunk_of(id),
    {
        ChunkKey { face: id.face, u_idx: id.u / CHUNK_SIZE, v_idx: id.v / CHUNK_SIZE }
    }

    /// Index of the entry of `key`, if the chunk has one.
    fn find_chunk(&self, key: ChunkKey) -> (r: Option<usize>)
        ensures
            match r {
                Some(i) => i < self.entries().len() && self.entries()[i as int].0 == key,
                None => forall|i: int| 0 <= i < self.entries().len() ==> self.entries()[i].0 != key,
            },
    {
        let mut i: usize = 0;
        while i < self.chunks.len()
            invariant
                i <= self.entries().len(),
                forall|k: int| 0 <= k < i ==> self.entries()[k].0 != key,
            decreases self.entries().len() - i,
        {
            if self.chunks[i].0 == key {
                return Some(i);
            }
            i = i + 1;
        }
        None
    }

    /// The edits recorded for a chunk, if it has any entry.
    pub fn chunk_mods(&self, key: ChunkKey) -> (r: Option<&ChunkMods>)
        requires
            self.wf(),
        ensures
            match r {
                Some(m) => {
                    &&& m.wf()
                    &&& forall|id: BlockId|
                        chunk_of(id) == key ==> (m.mined_set().contains(id)
                            == self.mined_set().contains(id) && m.placed_set().contains(id)
                            == self.placed_set().contains(id))
                    &&& forall|id: BlockId|
                        m.mined_set().contains(id) || m.placed_set().contains(id) ==> chunk_of(id)
                            == key
                    &&& forall|id: BlockId| m.mined_set().contains(id) ==> id.layer < self.res()
                },
                None => forall|id: BlockId|
                    chunk_of(id) == key ==> !self.mined_set().contains(id)
                        && !self.placed_set().contains(id),
            },
    {
        match self.find_chunk(key) {
            Some(i) => {
                proof {
                    assert forall|id: BlockId| chunk_of(id) == key implies (
                    self.entries()[i as int].1.mined_set().contains(id)
                        == self.mined_set().contains(id) && self.entries()[i as int].1.placed_set().contains(id)
                        == self.placed_set().contains(id)) by {
                        self.lemma_lookup(i as int, id);
                    }
                    assert forall|id: BlockId| self.entries()[i as int].1.mined_set().contains(id)
                        implies id.layer < self.res() by {
                        self.lemma_lookup(i as int, id);
                        self.lemma_mined_inside(id);
                    }
                }
                Some(&self.chunks[i].1)
            },
            None => {
                proof {
                    assert forall|id: BlockId| chunk_of(id) == key implies !self.mined_set().contains(id)
                        && !self.placed_set().contains(id) by {
                        self.lemma_absent(id);
                    }
                }
                None
            },
        }
    }

    proof fn lemma_lookup(&self, i: int, id: BlockId)
        requires
            self.wf(),
            0 <= i < self.entries().len(),
            self.entries()[i].0 == chunk_of(id),
        ensures
            self.mined_set().contains(id) == self.entries()[i].1.mined_set().contains(id),
            self.placed_set().contains(id) == self.entries()[i].1.placed_set().contains(id),
    {
        if self.mined_set().contains(id) {
            let j = choose|j: int|
                0 <= j < self.entries().len() && #[trigger] self.entries()[j].1.mined_set().contains(
                    id,
                );
            assert(self.entries()[j].0 == chunk_of(id));
        }
        if self.placed_set().contains(id) {
            let j = choose|j: int|
                0 <= j < self.entries().len() && #[trigger] self.entries()[j].1.placed_set().contains(
                    id,
                );
            assert(self.entries()[j].0 == chunk_of(id));
        }
    }

    proof fn lemma_absent(&self, id: BlockId)
        requires
            self.wf(),
            forall|i: int| 0 <= i < self.entries().len() ==> self.entries()[i].0 != chunk_of(id),
        ensures
            !self.mined_set().contains(id),
            !self.placed_set().contains(id),
    {
        if self.mined_set().contains(id) {
            let j = choose|j: int|
                0 <= j < self.entries().len() && #[trigger] self.entries()[j].1.mined_set().contains(
                    id,
                );
            assert(self.entries()[j].0 == chunk_of(id));
        }
        if self.placed_set().contains(id) {
            let j = choose|j: int|
                0 <= j < self.entries().len() && #[trigger] self.entries()[j].1.placed_set().contains(
                    id,
                );
            assert(self.entries()[j].0 == chunk_of(id));
        }
    }

    /// `b` is `a` with the edits of entry `idx` replaced by `m`, which holds only blocks
    /// of that chunk.
    proof fn lemma_replace(a: PlanetData, b: PlanetData, idx: int, m: ChunkMods)
        requires
            a.wf(),
            0 <= idx < a.entries().len(),
            b.entries() == a.entries().update(idx, (a.entries()[idx].0, m)),
            b.land() == a.land(),
            b.res() == a.res(),
            m.wf(),
            forall|id: BlockId|
                m.mined_set().contains(id) || m.placed_set().contains(id) ==> chunk_of(id)
                    == a.entries()[idx].0,
            forall|id: BlockId| m.mined_set().contains(id) ==> id.layer < a.res(),
        ensures
            b.wf(),
            forall|id: BlockId|
                chunk_of(id) != a.entries()[idx].0 ==> (b.mined_set().contains(id)
                    == a.mined_set().contains(id) && b.placed_set().contains(id)
                    == a.placed_set().contains(id)),
            forall|id: BlockId|
                chunk_of(id) == a.entries()[idx].0 ==> (b.mined_set().contains(id)
                    == m.mined_set().contains(id) && b.placed_set().contains(id)
                    == m.placed_set().contains(id)),
    {
        let key = a.entries()[idx].0;
        assert forall|i: int, j: int|
            0 <= i < b.entries().len() && 0 <= j < b.entries().len() && i != j implies (
            #[trigger] b.entries()[i]).0 != (#[trigger] b.entries()[j]).0 by {
            assert(a.entries()[i].0 != a.entries()[j].0);
        }
        assert(b.wf());
        assert forall|id: BlockId| chunk_of(id) != key implies (b.mined_set().contains(id)
            == a.mined_set().contains(id) && b.placed_set().contains(id) == a.placed_set().contains(
            id,
        )) by {
            if a.mined_set().contains(id) {
                let j = choose|j: int|
                    0 <= j < a.entries().len() && #[trigger] a.entries()[j].1.mined_set().contains(
                        id,
                    );
                assert(b.entries()[j] == a.entries()[j]);
            }
            if b.mined_set().contains(id) {
                let j = choose|j: int|
                    0 <= j < b.entries().len() && #[trigger] b.entries()[j].1.mined_set().contains(
                        id,
                    );
                assert(b.entries()[j] == a.entries()[j]);
            }
            if a.placed_set().contains(id) {
                let j = choose|j: int|
                    0 <= j < a.entries().len() && #[trigger] a.entries()[j].1.placed_set().contains(
                        id,
                    );
                assert(b.entries()[j] == a.entries()[j]);
            }
            if b.placed_set().contains(id) {
                let j = choose|j: int|
                    0 <= j < b.entries().len() && #[trigger] b.entries()[j].1.placed_set().contains(
                        id,
                    );
                assert(b.entries()[j] == a.entries()[j]);
            }
        }
        assert forall|id: BlockId| chunk_of(id) == key implies (b.mined_set().contains(id)
            == m.mined_set().contains(id) && b.placed_set().contains(id) == m.placed_set().contains(
            id,
        )) by {
            b.lemma_lookup(idx, id);
        }
    }

    /// Index of the entry of `key`, added empty if the chunk had none.
    fn entry_for(&mut self, key: ChunkKey) -> (r: usize)
        requires
            old(self).wf(),
        ensures
            final(self).wf(),
            r < final(self).entries().len(),
            final(self).entries()[r as int].0 == key,
            final(self).mined_set() == old(self).mined_set(),
            final(self).placed_set() == old(self).placed_set(),
            final(self).res() == old(self).res(),
            final(self).keeps_core() == old(self).keeps_core(),
            final(self).land() == old(self).land(),
    {
        match self.find_chunk(key) {
            Some(i) => i,
            None => {
                let ghost a = *self;
                self.chunks.push((key, ChunkMods::new()));
                proof {
                    let n = a.entries().len() as int;
                    assert(self.entries()[n].1.mined_set() =~= Set::empty());
                    assert(self.entries()[n].1.placed_set() =~= Set::empty());
                    assert forall|i: int| 0 <= i < n implies self.entries()[i] == a.entries()[i] by {}
                    assert forall|id: BlockId|
                        self.mined_set().contains(id) == a.mined_set().contains(id)
                            && self.placed_set().contains(id) == a.placed_set().contains(id) by {
                        if self.mined_set().contains(id) {
                            let j = choose|j: int|
                                0 <= j < self.entries().len()
                                    && #[trigger] self.entries()[j].1.mined_set().contains(id);
                            assert(j != n);
                        }
                        if self.placed_set().contains(id) {
                            let j = choose|j: int|
                                0 <= j < self.entries().len()
                                    && #[trigger] self.entries()[j].1.placed_set().contains(id);
                            assert(j != n);
                        }
                        if a.mined_set().contains(id) {
                            let j = choose|j: int|
                                0 <= j < a.entries().len()
                                    && #[trigger] a.entries()[j].1.mined_set().contains(id);
                            assert(self.entries()[j] == a.entries()[j]);
                        }
                        if a.placed_set().contains(id) {
                            let j = choose|j: int|
                                0 <= j < a.entries().len()
                                    && #[trigger] a.entries()[j].1.placed_set().contains(id);
                            assert(self.entries()[j] == a.entries()[j]);
                        }
                    }
                    assert(self.mined_set() =~= a.mined_set());
                    assert(self.placed_set() =~= a.placed_set());
                }
                self.chunks.len() - 1
            },
        }
    }

    /// Adds a block: a mined block is restored to the natural terrain, anything else
    /// joins the placed set (placing twice is no error).
    pub fn add_block(&mut self, id: BlockId)
        requires
            old(self).wf(),
        ensures
            final(self).wf(),
            final(self).edits() == edits_after_add(old(self).edits(), id),
            final(self).res() == old(self).res(),
            final(self).keeps_core() == old(self).keeps_core(),
            final(self).land() == old(self).land(),
    {
        let key = Self::get_chunk_key(id);
        let idx = self.entry_for(key);
        let ghost a = *self;
        let (k, mut mods) = self.chunks.remove(idx);
        proof {
            a.lemma_lookup(idx as int, id);
        }
        match position_of(&mods.mined, id) {
            Some(j) => {
                proof {
                    lemma_remove_unique(mods.mined@, j as int);
                }
                mods.mined.remove(j);
            },
            None => {
                if position_of(&mods.placed, id).is_none() {
                    proof {
                        lemma_push_unique(mods.placed@, id);
                    }
                    mods.placed.push(id);
                }
            },
        }
        let ghost m = mods;
        self.chunks.insert(idx, (k, mods));
        proof {
            assert(self.entries() =~= a.entries().update(idx as int, (key, m)));
            Self::lemma_replace(a, *self, idx as int, m);
            let e = edits_after_add(a.edits(), id);
            assert(self.mined_set() =~= e.0);
            assert(self.placed_set() =~= e.1);
        }
    }

    /// Removes a block: the core is left alone, a placed block is taken back, and a
    /// natural block inside the shell is recorded as mined.
    pub fn remove_block(&mut self, id: BlockId)
        requires
            old(self).wf(),
        ensures
            final(self).wf(),
            final(self).edits() == edits_after_remove(
                old(self).edits(),
                id,
                old(self).res(),
                old(self).keeps_core(),
            ),
            final(self).res() == old(self).res(),
            final(self).keeps_core() == old(self).keeps_core(),
            final(self).land() == old(self).land(),
    {
        if self.has_core && id.layer < CORE_LAYERS {
            return;
        }
        let key = Self::get_chunk_key(id);
        let idx = self.entry_for(key);
        let ghost a = *self;
        let (k, mut mods) = self.chunks.remove(idx);
        proof {
            a.lemma_lookup(idx as int, id);
        }
        match position_of(&mods.placed, id) {
            Some(j) => {
                proof {
                    lemma_remove_unique(mods.placed@, j as int);
                }
                mods.placed.remove(j);
            },
            None => {
                if id.layer < self.resolution && position_of(&mods.mined, id).is_none() {
                    proof {
                        lemma_push_unique(mods.mined@, id);
                    }
                    mods.mined.push(id);
                }
            },
        }
        let ghost m = mods;
        self.chunks.insert(idx, (k, mods));
        proof {
            assert(self.entries() =~= a.entries().update(idx as int, (key, m)));
            Self::lemma_replace(a, *self, idx as int, m);
            let e = edits_after_remove(a.edits(), id, a.res(), a.keeps_core());
            assert(self.mined_set() =~= e.0);
            assert(self.placed_set() =~= e.1);
        }
    }

    proof fn lemma_mined_inside(&self, id: BlockId)
        requires
            self.wf(),
            self.mined_set().contains(id),
        ensures
            id.layer < self.res(),
    {
        let j = choose|j: int|
            0 <= j < self.entries().len() && #[trigger] self.entries()[j].1.mined_set().contains(id);
    }

    /// No block is ever both mined and placed.
    pub proof fn lemma_mined_placed_exclusive(&self)
        requires
            self.wf(),
        ensures
            self.mined_set().disjoint(self.placed_set()),
    {
        assert forall|id: BlockId| !(self.mined_set().contains(id) && self.placed_set().contains(id)) by {
            if self.mined_set().contains(id) && self.placed_set().contains(id) {
                let i = choose|i: int|
                    0 <= i < self.entries().len() && #[trigger] self.entries()[i].1.mined_set().contains(
                        id,
                    );
                self.lemma_lookup(i, id);
                assert(self.entries()[i].1.wf());
            }
        }
    }

    /// Adding a block and then removing it gives back the edits there were before, for
    /// any block outside the protected core that was not already placed.
    pub proof fn lemma_add_then_remove(&self, id: BlockId)
        requires
            self.wf(),
            !protected(id, self.keeps_core()),
            !self.placed_set().contains(id),
        ensures
            edits_after_remove(edits_after_add(self.edits(), id), id, self.res(), self.keeps_core())
                == self.edits(),
    {
        self.lemma_mined_placed_exclusive();
        let e = self.edits();
        if e.0.contains(id) {
            self.lemma_mined_inside(id);
            assert(e.0.remove(id).insert(id) =~= e.0);
        } else {
            assert(e.1.insert(id).remove(id) =~= e.1);
        }
    }

    /// Whether the block is solid, edits first and the heightmap after.
    pub fn block_exists(&self, id: BlockId) -> (r: bool)
        requires
            self.wf(),
            id.face < 6,
        ensures
            r == self.solid_at(id),
    {
        let key = Self::get_chunk_key(id);
        if let Some(mods) = self.chunk_mods(key) {
            if position_of(&mods.placed, id).is_some() {
                return true;
            }
            if position_of(&mods.mined, id).is_some() {
                return false;
            }
        }
        let height = self.terrain.get_height(id.face, id.u, id.v);
        id.layer <= height
    }
}

} // verus!
