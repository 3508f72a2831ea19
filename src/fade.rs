use vstd::prelude::*;
use crate::keys::AnyKey;

verus! {

/// Length of a fade, in milliseconds.
pub const FADE_MS: u64 = 2000;

/// An opacity in `[0, 1]` held as the exact fraction `num / den`.
#[derive(PartialEq, Eq, Structural, Clone, Copy, Debug)]
pub struct Opacity {
    pub num: u64,
    pub den: u64,
}

/// `elapsed` clamped to `[0, d]`.
pub open spec fn clamp_elapsed(elapsed: int, d: int) -> int {
    if elapsed < 0 {
        0
    } else if elapsed > d {
        d
    } else {
        elapsed
    }
}

/// The smoothstep curve `t * t * (3 - 2 * t)` at `t = e / d`, scaled by `d * d * d`.
pub open spec fn eased(elapsed: int, d: int) -> int {
    let e = clamp_elapsed(elapsed, d);
    e * e * (3 * d - 2 * e)
}

/// Opacity of a spawning key `elapsed` milliseconds after its start.
pub open spec fn spawn_opacity(elapsed: int) -> Opacity {
    Opacity { num: eased(elapsed, FADE_MS as int) as u64, den: (FADE_MS * FADE_MS * FADE_MS) as u64 }
}

/// Opacity of a retiring key `elapsed` milliseconds after its start.
pub open spec fn retire_opacity(elapsed: int) -> Opacity {
    Opacity {
        num: (FADE_MS * FADE_MS * FADE_MS - eased(elapsed, FADE_MS as int)) as u64,
        den: (FADE_MS * FADE_MS * FADE_MS) as u64,
    }
}

proof fn lemma_eased_bounds(elapsed: int, d: int)
    requires
        d > 0,
    ensures
        0 <= eased(elapsed, d) <= d * d * d,
{
    let e = clamp_elapsed(elapsed, d);
    assert(0 <= e * e * (3 * d - 2 * e) <= d * d * d) by (nonlinear_arith)
        requires
            0 <= e <= d,
    {
        assert(d * d * d - e * e * (3 * d - 2 * e) == (d - e) * (d - e) * (d + 2 * e));
        assert((d - e) * (d - e) * (d + 2 * e) >= 0);
    }
}

/// The smoothstep curve never falls as time passes and stays within `[0, d^3]`.
pub proof fn lemma_eased_monotone(e1: int, e2: int, d: int)
    requires
        d > 0,
        e1 <= e2,
    ensures
        eased(e1, d) <= eased(e2, d),
        0 <= eased(e1, d) <= d * d * d,
{
    lemma_eased_bounds(e1, d);
    let a = clamp_elapsed(e1, d);
    let b = clamp_elapsed(e2, d);
    assert(a * a * (3 * d - 2 * a) <= b * b * (3 * d - 2 * b)) by (nonlinear_arith)
        requires
            0 <= a <= b <= d,
    {
        assert(b * b * (3 * d - 2 * b) - a * a * (3 * d - 2 * a) == (b - a) * (3 * d * (a + b) - 2
            * (a * a + a * b + b * b)));
        assert(3 * d * (a + b) - 2 * (a * a + a * b + b * b) >= 0) by (nonlinear_arith)
            requires
                0 <= a <= b <= d,
        {
            assert(2 * a * a <= 2 * d * a);
            assert(2 * b * b <= 2 * d * b);
            assert(2 * a * b <= d * a + d * b);
        }
    }
}

/// Opacity while spawning never falls as time passes, opacity while retiring never
/// rises, and both stay within `[0, 1]`.
pub proof fn lemma_opacity_monotone(e1: int, e2: int)
    requires
        e1 <= e2,
    ensures
        spawn_opacity(e1).num <= spawn_opacity(e2).num,
        spawn_opacity(e1).den == spawn_opacity(e2).den,
        retire_opacity(e1).num >= retire_opacity(e2).num,
        retire_opacity(e1).den == retire_opacity(e2).den,
        spawn_opacity(e1).num <= spawn_opacity(e1).den,
        retire_opacity(e1).num <= retire_opacity(e1).den,
{
    let d = FADE_MS as int;
    lemma_eased_monotone(e1, e2, d);
    lemma_eased_monotone(e2, e2, d);
}

/// Milliseconds from `start` to `now`; none when `now` comes first.
pub open spec fn elapsed_ms(now: u64, start: u64) -> int {
    if now >= start {
        now - start
    } else {
        0
    }
}

/// Each key appears once.
pub open spec fn keys_unique(s: Seq<(AnyKey, u64)>) -> bool {
    forall|i: int, j: int|
        0 <= i < s.len() && 0 <= j < s.len() && i != j ==> (#[trigger] s[i]).0 != (#[trigger] s[j]).0
}

/// The start time recorded for `key`, if any.
pub open spec fn start_of(s: Seq<(AnyKey, u64)>, key: AnyKey) -> Option<u64> {
    if exists|i: int| 0 <= i < s.len() && (#[trigger] s[i]).0 == key {
        Some(s[choose|i: int| 0 <= i < s.len() && (#[trigger] s[i]).0 == key].1)
    } else {
        None
    }
}

proof fn lemma_start_at(s: Seq<(AnyKey, u64)>, i: int)
    requires
        keys_unique(s),
        0 <= i < s.len(),
    ensures
        start_of(s, s[i].0) == Some(s[i].1),
{
    let j = choose|j: int| 0 <= j < s.len() && (#[trigger] s[j]).0 == s[i].0;
    assert(i == j);
}

proof fn lemma_start_absent(s: Seq<(AnyKey, u64)>, key: AnyKey)
    requires
        forall|i: int| 0 <= i < s.len() ==> (#[trigger] s[i]).0 != key,
    ensures
        start_of(s, key) == None::<u64>,
{
}

/// The full opacity of a resident key.
pub open spec fn opaque() -> Opacity {
    Opacity { num: (FADE_MS * FADE_MS * FADE_MS) as u64, den: (FADE_MS * FADE_MS * FADE_MS) as u64 }
}

/// Index of `key` in `s`, if it is there.
fn index_of_key(s: &Vec<(AnyKey, u64)>, key: AnyKey) -> (r: Option<usize>)
    ensures
        match r {
            Some(i) => i < s@.len() && s@[i as int].0 == key,
            None => forall|i: int| 0 <= i < s@.len() ==> (#[trigger] s@[i]).0 != key,
        },
{
    let mut i: usize = 0;
    while i < s.len()
        invariant
            i <= s@.len(),
            forall|j: int| 0 <= j < i ==> (#[trigger] s@[j]).0 != key,
        decreases s@.len() - i,
    {
        if s[i].0 == key {
            return Some(i);
        }
        i = i + 1;
    }
    None
}

proof fn lemma_remove_entry(a: Seq<(AnyKey, u64)>, i: int)
    requires
        keys_unique(a),
        0 <= i < a.len(),
    ensures
        keys_unique(a.remove(i)),
        start_of(a.remove(i), a[i].0) == None::<u64>,
        forall|k: AnyKey| k != a[i].0 ==> start_of(a.remove(i), k) == start_of(a, k),
{
    let key = a[i].0;
    let b = a.remove(i);
    assert forall|x: int| 0 <= x < b.len() implies b[x] == a[if x < i { x } else { x + 1 }] by {}
    assert forall|x: int, y: int|
        0 <= x < b.len() && 0 <= y < b.len() && x != y implies (#[trigger] b[x]).0 != (#[trigger] b[y]).0 by {
        let x0 = if x < i { x } else { x + 1 };
        let y0 = if y < i { y } else { y + 1 };
        assert(b[x] == a[x0] && b[y] == a[y0]);
    }
    assert forall|x: int| 0 <= x < b.len() implies (#[trigger] b[x]).0 != key by {
        let x0 = if x < i { x } else { x + 1 };
        assert(b[x] == a[x0]);
    }
    assert forall|k: AnyKey| k != key implies start_of(b, k) == start_of(a, k) by {
        if exists|x: int| 0 <= x < a.len() && (#[trigger] a[x]).0 == k {
            let x0 = choose|x: int| 0 <= x < a.len() && (#[trigger] a[x]).0 == k;
            lemma_start_at(a, x0);
            let x = if x0 < i { x0 } else { x0 - 1 };
            assert(b[x] == a[x0]);
            lemma_start_at(b, x);
        } else {
            assert forall|x: int| 0 <= x < b.len() implies (#[trigger] b[x]).0 != k by {
                let x0 = if x < i { x } else { x + 1 };
                assert(b[x] == a[x0]);
            }
        }
    }
}

proof fn lemma_push_entry(a: Seq<(AnyKey, u64)>, e: (AnyKey, u64))
    requires
        keys_unique(a),
        start_of(a, e.0) == None::<u64>,
    ensures
        keys_unique(a.push(e)),
        start_of(a.push(e), e.0) == Some(e.1),
        forall|k: AnyKey| k != e.0 ==> start_of(a.push(e), k) == start_of(a, k),
{
    let b = a.push(e);
    assert forall|x: int| 0 <= x < a.len() implies (#[trigger] a[x]).0 != e.0 by {
        if a[x].0 == e.0 {
            assert(exists|i: int| 0 <= i < a.len() && (#[trigger] a[i]).0 == e.0);
        }
    }
    assert forall|x: int, y: int|
        0 <= x < b.len() && 0 <= y < b.len() && x != y implies (#[trigger] b[x]).0 != (#[trigger] b[y]).0 by {
        if x < a.len() && y < a.len() {
            assert(b[x] == a[x] && b[y] == a[y]);
        } else if x < a.len() {
            assert(b[x] == a[x]);
        } else if y < a.len() {
            assert(b[y] == a[y]);
        }
    }
    lemma_start_at(b, a.len() as int);
    assert forall|k: AnyKey| k != e.0 implies start_of(b, k) == start_of(a, k) by {
        if exists|x: int| 0 <= x < a.len() && (#[trigger] a[x]).0 == k {
            let x0 = choose|x: int| 0 <= x < a.len() && (#[trigger] a[x]).0 == k;
            lemma_start_at(a, x0);
            assert(b[x0] == a[x0]);
            lemma_start_at(b, x0);
        } else {
            assert forall|x: int| 0 <= x < b.len() implies (#[trigger] b[x]).0 != k by {
                if x < a.len() {
                    assert(b[x] == a[x]);
                }
            }
        }
    }
}

/// Removes the entry of `key`, if there is one.
fn drop_key(s: &mut Vec<(AnyKey, u64)>, key: AnyKey)
    requires
        keys_unique(old(s)@),
    ensures
        keys_unique(final(s)@),
        start_of(final(s)@, key) == None::<u64>,
        forall|k: AnyKey| k != key ==> start_of(final(s)@, k) == start_of(old(s)@, k),
{
    match index_of_key(s, key) {
        Some(i) => {
            proof {
                lemma_remove_entry(s@, i as int);
            }
            s.remove(i);
        },
        None => {},
    }
}

/// The keys and start times of retiring entries.
pub open spec fn pairs_of<M>(v: Seq<(AnyKey, u64, M)>) -> Seq<(AnyKey, u64)> {
    v.map_values(|e: (AnyKey, u64, M)| (e.0, e.1))
}

/// The start time a fade keeps at `now`: fades that have run their length end.
pub open spec fn still_fading(start: Option<u64>, now: u64) -> Option<u64> {
    match start {
        Some(t) => if elapsed_ms(now, t) < FADE_MS {
            Some(t)
        } else {
            None
        },
        None => None,
    }
}

proof fn lemma_start_split(a: Seq<(AnyKey, u64)>, n: int, k: AnyKey)
    requires
        keys_unique(a),
        0 < n <= a.len(),
    ensures
        start_of(a.subrange(n - 1, a.len() as int), k) == (if k == a[n - 1].0 {
            Some(a[n - 1].1)
        } else {
            start_of(a.subrange(n, a.len() as int), k)
        }),
        start_of(a.subrange(n, a.len() as int), a[n - 1].0) == None::<u64>,
{
    let b = a.subrange(n - 1, a.len() as int);
    let c = a.subrange(n, a.len() as int);
    assert forall|x: int, y: int|
        0 <= x < b.len() && 0 <= y < b.len() && x != y implies (#[trigger] b[x]).0 != (#[trigger] b[y]).0 by {
        assert(b[x] == a[x + n - 1] && b[y] == a[y + n - 1]);
    }
    assert forall|x: int, y: int|
        0 <= x < c.len() && 0 <= y < c.len() && x != y implies (#[trigger] c[x]).0 != (#[trigger] c[y]).0 by {
        assert(c[x] == a[x + n] && c[y] == a[y + n]);
    }
    assert forall|x: int| 0 <= x < c.len() implies (#[trigger] c[x]).0 != a[n - 1].0 by {
        assert(c[x] == a[x + n]);
    }
    lemma_start_at(b, 0);
    if k != a[n - 1].0 {
        if exists|x: int| 0 <= x < c.len() && (#[trigger] c[x]).0 == k {
            let x = choose|x: int| 0 <= x < c.len() && (#[trigger] c[x]).0 == k;
            lemma_start_at(c, x);
            assert(b[x + 1] == c[x]);
            lemma_start_at(b, x + 1);
        } else {
            assert forall|x: int| 0 <= x < b.len() implies (#[trigger] b[x]).0 != k by {
                if x > 0 {
                    assert(b[x] == c[x - 1]);
                }
            }
        }
    }
}

/// Takes out every entry of `rest` and returns those whose fade is still running at
/// `now`.
fn keep_fading(rest: &mut Vec<(AnyKey, u64)>, now: u64) -> (r: Vec<(AnyKey, u64)>)
    requires
        keys_unique(old(rest)@),
    ensures
        keys_unique(r@),
        forall|k: AnyKey| #[trigger] start_of(r@, k) == still_fading(start_of(old(rest)@, k), now),
{
    let ghost a = rest@;
    let mut kept: Vec<(AnyKey, u64)> = Vec::new();
    while rest.len() > 0
        invariant
            rest@.len() <= a.len(),
            rest@ == a.subrange(0, rest@.len() as int),
            keys_unique(a),
            keys_unique(kept@),
            forall|k: AnyKey|
                #[trigger] start_of(kept@, k) == still_fading(
                    start_of(a.subrange(rest@.len() as int, a.len() as int), k),
                    now,
                ),
        decreases rest@.len(),
    {
        let ghost n = rest@.len() as int;
        let ghost ke = kept@;
        let e = rest.pop().unwrap();
        proof {
            assert(a[n - 1] == e);
            assert(rest@ =~= a.subrange(0, n - 1));
            assert forall|k: AnyKey| #[trigger] start_of(a.subrange(n - 1, a.len() as int), k) == (if k == e.0 {
                Some(e.1)
            } else {
                start_of(a.subrange(n, a.len() as int), k)
            }) by {
                lemma_start_split(a, n, k);
            }
            lemma_start_split(a, n, e.0);
        }
        let elapsed = if now >= e.1 { now - e.1 } else { 0 };
        if elapsed < FADE_MS {
            proof {
                lemma_push_entry(ke, e);
            }
            kept.push(e);
            proof {
                let m = rest@.len() as int;
                assert forall|k: AnyKey|
                    #[trigger] start_of(kept@, k) == still_fading(
                        start_of(a.subrange(m, a.len() as int), k),
                        now,
                    ) by {
                    assert(start_of(ke, k) == still_fading(
                        start_of(a.subrange(n, a.len() as int), k),
                        now,
                    ));
                }
            }
        } else {
            proof {
                let m = rest@.len() as int;
                assert(elapsed_ms(now, e.1) >= FADE_MS);
                assert forall|k: AnyKey|
                    #[trigger] start_of(kept@, k) == still_fading(
                        start_of(a.subrange(m, a.len() as int), k),
                        now,
                    ) by {
                    assert(start_of(kept@, k) == still_fading(
                        start_of(a.subrange(n, a.len() as int), k),
                        now,
                    ));
                }
            }
        }
    }
    proof {
        assert(a.subrange(0, a.len() as int) =~= a);
    }
    kept
}

/// Opacity state of the keys entering or leaving residency: spawning keys with their
/// start time, and retiring keys with their start time and the mesh they keep alive.
pub struct LodAnimator<M> {
    spawning: Vec<(AnyKey, u64)>,
    dying: Vec<(AnyKey, u64, M)>,
}

impl<M> LodAnimator<M> {
    pub closed spec fn spawn_entries(&self) -> Seq<(AnyKey, u64)> {
        self.spawning@
    }

    pub closed spec fn retire_entries(&self) -> Seq<(AnyKey, u64)> {
        pairs_of(self.dying@)
    }

    /// When the key started spawning, if it is spawning.
    pub open spec fn spawn_start(&self, key: AnyKey) -> Option<u64> {
        start_of(self.spawn_entries(), key)
    }

    /// When the key started retiring, if it is retiring.
    pub open spec fn retire_start(&self, key: AnyKey) -> Option<u64> {
        start_of(self.retire_entries(), key)
    }

    /// Each key is recorded once, and never as both spawning and retiring.
    pub open spec fn wf(&self) -> bool {
        &&& keys_unique(self.spawn_entries())
        &&& keys_unique(self.retire_entries())
        &&& forall|k: AnyKey| !(self.spawn_start(k) is Some && self.retire_start(k) is Some)
    }

    pub fn new() -> (r: Self)
        ensures
            r.wf(),
            forall|k: AnyKey| r.spawn_start(k) == None::<u64> && r.retire_start(k) == None::<u64>,
    {
        let r = LodAnimator { spawning: Vec::new(), dying: Vec::new() };
        assert(r.retire_entries() =~= Seq::empty());
        r
    }

    /// Removes the retiring entry of `key`, dropping its mesh, if there is one.
    fn drop_dying(&mut self, key: AnyKey)
        requires
            keys_unique(old(self).retire_entries()),
        ensures
            keys_unique(final(self).retire_entries()),
            final(self).retire_start(key) == None::<u64>,
            forall|k: AnyKey| k != key ==> final(self).retire_start(k) == old(self).retire_start(k),
            final(self).spawn_entries() == old(self).spawn_entries(),
    {
        let mut i: usize = 0;
        while i < self.dying.len()
            invariant
                i <= self.dying@.len(),
                self.dying@ == old(self).dying@,
                self.spawning@ == old(self).spawning@,
                keys_unique(self.retire_entries()),
                forall|j: int| 0 <= j < i ==> (#[trigger] self.dying@[j]).0 != key,
            decreases self.dying@.len() - i,
        {
            if self.dying[i].0 == key {
                let ghost a = self.retire_entries();
                proof {
                    lemma_remove_entry(a, i as int);
                }
                self.dying.remove(i);
                assert(self.retire_entries() =~= a.remove(i as int));
                return;
            }
            i = i + 1;
        }
        assert forall|j: int| 0 <= j < self.retire_entries().len() implies (
        #[trigger] self.retire_entries()[j]).0 != key by {
            assert(self.dying@[j].0 != key);
        }
    }

    /// Starts (or restarts) the fade-in of `key` at `now`; a retiring key is revived
    /// and its retirement forgotten.
    pub fn start_spawn(&mut self, key: AnyKey, now: u64)
        requires
            old(self).wf(),
        ensures
            final(self).wf(),
            final(self).spawn_start(key) == Some(now),
            final(self).retire_start(key) == None::<u64>,
            forall|k: AnyKey|
                k != key ==> final(self).spawn_start(k) == old(self).spawn_start(k)
                    && final(self).retire_start(k) == old(self).retire_start(k),
    {
        self.drop_dying(key);
        drop_key(&mut self.spawning, key);
        proof {
            lemma_push_entry(self.spawning@, (key, now));
        }
        self.spawning.push((key, now));
        assert forall|k: AnyKey| !(self.spawn_start(k) is Some && self.retire_start(k) is Some) by {
            if k != key {
                assert(!(old(self).spawn_start(k) is Some && old(self).retire_start(k) is Some));
            }
        }
    }

    /// Starts the fade-out of `key` at `now`, keeping `mesh` alive until it ends.
    pub fn retire(&mut self, key: AnyKey, mesh: M, now: u64)
        requires
            old(self).wf(),
        ensures
            final(self).wf(),
            final(self).retire_start(key) == Some(now),
            final(self).spawn_start(key) == None::<u64>,
            forall|k: AnyKey|
                k != key ==> final(self).spawn_start(k) == old(self).spawn_start(k)
                    && final(self).retire_start(k) == old(self).retire_start(k),
    {
        self.drop_dying(key);
        drop_key(&mut self.spawning, key);
        let ghost a = self.retire_entries();
        proof {
            lemma_push_entry(a, (key, now));
        }
        self.dying.push((key, now, mesh));
        assert(self.retire_entries() =~= a.push((key, now)));
        assert forall|k: AnyKey| !(self.spawn_start(k) is Some && self.retire_start(k) is Some) by {
            if k != key {
                assert(!(old(self).spawn_start(k) is Some && old(self).retire_start(k) is Some));
            }
        }
    }

    /// Opacity of `key` at `now`: rising along the smoothstep curve while it spawns,
    /// full otherwise.
    pub fn get_opacity(&self, key: AnyKey, now: u64) -> (r: Opacity)
        requires
            self.wf(),
        ensures
            r == (match self.spawn_start(key) {
                Some(start) => spawn_opacity(elapsed_ms(now, start)),
                None => opaque(),
            }),
    {
        match index_of_key(&self.spawning, key) {
            Some(i) => {
                let start = self.spawning[i].1;
                proof {
                    lemma_start_at(self.spawning@, i as int);
                }
                let elapsed = if now >= start { now - start } else { 0 };
                Self::spawn_curve(elapsed)
            },
            None => Opacity { num: FADE_MS * FADE_MS * FADE_MS, den: FADE_MS * FADE_MS * FADE_MS },
        }
    }

    fn spawn_curve(elapsed: u64) -> (r: Opacity)
        ensures
            r == spawn_opacity(elapsed as int),
    {
        let d = FADE_MS;
        let e = if elapsed > d { d } else { elapsed };
        proof {
            lemma_eased_bounds(elapsed as int, d as int);
        }
        assert(e * e <= d * d) by (nonlinear_arith)
            requires
                e <= d,
        ;
        Opacity { num: e * e * (3 * d - 2 * e), den: d * d * d }
    }

    fn retire_curve(elapsed: u64) -> (r: Opacity)
        ensures
            r == retire_opacity(elapsed as int),
    {
        let d = FADE_MS;
        let e = if elapsed > d { d } else { elapsed };
        proof {
            lemma_eased_bounds(elapsed as int, d as int);
        }
        assert(e * e <= d * d) by (nonlinear_arith)
            requires
                e <= d,
        ;
        Opacity { num: d * d * d - e * e * (3 * d - 2 * e), den: d * d * d }
    }

    /// Advances the fades to `now`: keys whose fade has run its length are dropped (a
    /// retiring key with its mesh; a spawning key is then simply resident), and each
    /// retiring key still fading comes back with its opacity.
    pub fn update_dying(&mut self, now: u64) -> (r: Vec<(AnyKey, Opacity)>)
        requires
            old(self).wf(),
        ensures
            final(self).wf(),
            forall|k: AnyKey|
                final(self).spawn_start(k) == still_fading(old(self).spawn_start(k), now),
            forall|k: AnyKey|
                final(self).retire_start(k) == still_fading(old(self).retire_start(k), now),
            forall|i: int|
                0 <= i < r@.len() ==> (match old(self).retire_start((#[trigger] r@[i]).0) {
                    Some(t) => elapsed_ms(now, t) < FADE_MS && r@[i].1 == retire_opacity(
                        elapsed_ms(now, t),
                    ),
                    None => false,
                }),
            forall|k: AnyKey|
                final(self).retire_start(k) is Some ==> exists|i: int|
                    0 <= i < r@.len() && (#[trigger] r@[i]).0 == k,
    {
        let ghost a = self.retire_entries();
        let mut kept: Vec<(AnyKey, u64, M)> = Vec::new();
        let mut out: Vec<(AnyKey, Opacity)> = Vec::new();
        proof {
            assert(pairs_of(kept@) =~= Seq::empty());
        }
        while self.dying.len() > 0
            invariant
                self.dying@.len() <= a.len(),
                self.retire_entries() == a.subrange(0, self.dying@.len() as int),
                self.spawning@ == old(self).spawning@,
                a == old(self).retire_entries(),
                keys_unique(a),
                keys_unique(pairs_of(kept@)),
                forall|k: AnyKey|
                    start_of(pairs_of(kept@), k) == still_fading(
                        start_of(a.subrange(self.dying@.len() as int, a.len() as int), k),
                        now,
                    ),
                forall|i: int|
                    0 <= i < out@.len() ==> (match start_of(a, (#[trigger] out@[i]).0) {
                        Some(t) => elapsed_ms(now, t) < FADE_MS && out@[i].1 == retire_opacity(
                            elapsed_ms(now, t),
                        ),
                        None => false,
                    }),
                forall|k: AnyKey|
                    #[trigger] start_of(pairs_of(kept@), k) is Some
                        ==> exists|i: int| 0 <= i < out@.len() && (#[trigger] out@[i]).0 == k,
            decreases self.dying@.len(),
        {
            let ghost n = self.dying@.len() as int;
            let ghost ke = pairs_of(kept@);
            let ghost d0 = self.dying@;
            let e = self.dying.pop().unwrap();
            proof {
                assert(pairs_of(d0)[n - 1] == (d0[n - 1].0, d0[n - 1].1));
                assert(pairs_of(d0)[n - 1] == a.subrange(0, n)[n - 1]);
                assert(a[n - 1] == (e.0, e.1));
                assert forall|j: int| 0 <= j < n - 1 implies pairs_of(self.dying@)[j] == a[j] by {
                    assert(pairs_of(d0)[j] == a.subrange(0, n)[j]);
                    assert(self.dying@[j] == d0[j]);
                }
                assert(self.retire_entries() =~= a.subrange(0, n - 1));
                lemma_start_at(a, n - 1);
                assert forall|k: AnyKey| #[trigger] start_of(a.subrange(n - 1, a.len() as int), k) == (if k == e.0 {
                    Some(e.1)
                } else {
                    start_of(a.subrange(n, a.len() as int), k)
                }) by {
                    lemma_start_split(a, n, k);
                }
                lemma_start_split(a, n, e.0);
            }
            let elapsed = if now >= e.1 { now - e.1 } else { 0 };
            if elapsed < FADE_MS {
                let o = Self::retire_curve(elapsed);
                let ghost before_out = out@;
                out.push((e.0, o));
                proof {
                    lemma_push_entry(ke, (e.0, e.1));
                    assert forall|k: AnyKey|
                        start_of(ke, k) is Some implies exists|i: int|
                            0 <= i < out@.len() && (#[trigger] out@[i]).0 == k by {
                        let i = choose|i: int| 0 <= i < before_out.len() && (#[trigger] before_out[i]).0 == k;
                        assert(out@[i] == before_out[i]);
                    }
                }
                kept.push(e);
                proof {
                    assert(pairs_of(kept@) =~= ke.push((e.0, e.1)));
                    assert(out@[out@.len() - 1].0 == e.0);
                    let m = self.dying@.len() as int;
                    assert forall|k: AnyKey|
                        start_of(pairs_of(kept@), k) == still_fading(
                            start_of(a.subrange(m, a.len() as int), k),
                            now,
                        ) by {
                        assert(start_of(a.subrange(m, a.len() as int), k) == (if k == e.0 {
                            Some(e.1)
                        } else {
                            start_of(a.subrange(n, a.len() as int), k)
                        }));
                        assert(start_of(ke, k) == still_fading(
                            start_of(a.subrange(n, a.len() as int), k),
                            now,
                        ));
                        assert(start_of(pairs_of(kept@), k) == (if k == e.0 {
                            Some(e.1)
                        } else {
                            start_of(ke, k)
                        }));
                    }
                    assert forall|k: AnyKey|
                        #[trigger] start_of(pairs_of(kept@), k) is Some implies exists|i: int|
                            0 <= i < out@.len() && (#[trigger] out@[i]).0 == k by {
                        if k != e.0 {
                            assert(start_of(ke, k) is Some);
                        }
                    }
                }
            } else {
                proof {
                    let m = self.dying@.len() as int;
                    assert(elapsed_ms(now, e.1) >= FADE_MS);
                    assert forall|k: AnyKey|
                        start_of(pairs_of(kept@), k) == still_fading(
                            start_of(a.subrange(m, a.len() as int), k),
                            now,
                        ) by {
                        assert(start_of(pairs_of(kept@), k) == still_fading(
                            start_of(a.subrange(n, a.len() as int), k),
                            now,
                        ));
                        assert(start_of(a.subrange(m, a.len() as int), k) == (if k == e.0 {
                            Some(e.1)
                        } else {
                            start_of(a.subrange(n, a.len() as int), k)
                        }));
                    }
                }
            }
        }
        self.dying = kept;
        let fading_in = keep_fading(&mut self.spawning, now);
        self.spawning = fading_in;
        proof {
            assert(a.subrange(0, a.len() as int) =~= a);
            assert(self.retire_entries() =~= pairs_of(kept@));
            assert forall|k: AnyKey| !(self.spawn_start(k) is Some && self.retire_start(k) is Some) by {
                assert(!(old(self).spawn_start(k) is Some && old(self).retire_start(k) is Some));
            }
        }
        out
    }
}

} // verus!
