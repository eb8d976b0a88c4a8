//! The cell store: the authoritative set of currently-alive cell
//! coordinates, each mapped to an opaque slot handle, together with a
//! pool of handles whose cells have died and that wait for reuse.

use crate::fxmap::{fx_map_contains, fx_map_entries, fx_map_len, fx_map_new, fx_map_remove,
    fx_map_insert};
use rustc_hash::FxHashMap;
use vstd::prelude::*;

verus! {

/// Represents the position of a cell in the Game of Life grid.
///
/// Uses signed integers to allow for negative coordinates, enabling an
/// unbounded grid that can expand in all directions.
#[derive(Clone, Copy, PartialEq, Eq, Debug, Hash, Structural)]
pub struct CellPosition {
    /// The x-coordinate of the cell
    pub x: isize,
    /// The y-coordinate of the cell
    pub y: isize,
}

impl View for CellPosition {
    type V = (int, int);

    open spec fn view(&self) -> (int, int) {
        (self.x as int, self.y as int)
    }
}

/// Whether a mathematical coordinate pair is representable as a
/// `CellPosition`.
pub open spec fn in_coord_range(p: (int, int)) -> bool {
    isize::MIN <= p.0 <= isize::MAX && isize::MIN <= p.1 <= isize::MAX
}

/// The `CellPosition` holding a representable coordinate pair.
pub open spec fn pos_of(p: (int, int)) -> CellPosition {
    CellPosition { x: p.0 as isize, y: p.1 as isize }
}

/// The set of alive coordinates of an alive-cell map, as mathematical
/// pairs.
pub open spec fn alive_of(m: Map<CellPosition, u64>) -> Set<(int, int)> {
    Set::new(|p: (int, int)| in_coord_range(p) && m.contains_key(pos_of(p)))
}

/// Pool of dead cell handles ready for reuse.
pub struct DeadCellPool {
    /// The pooled handles, drawn from the back.
    pub entities: Vec<u64>,
}

/// The mathematical state of a cell store: the alive-cell map, the
/// pool of dead handles, and the next fresh handle.
pub struct StoreModel {
    /// Alive coordinates, each with the handle occupying it.
    pub cells: Map<CellPosition, u64>,
    /// Handles of dead cells, reused from the back before a fresh
    /// handle is allocated.
    pub pool: Seq<u64>,
    /// The smallest handle never allocated yet.
    pub next: u64,
}

impl StoreModel {
    /// Well-formedness: handles are allocated below `next`, appear at
    /// most once in the pool, and never both in the pool and on an
    /// alive cell; distinct alive cells hold distinct handles.
    pub open spec fn inv(self) -> bool {
        &&& self.pool.no_duplicates()
        &&& forall|j: int| 0 <= j < self.pool.len() ==> self.pool[j] < self.next
        &&& forall|c: CellPosition| self.cells.contains_key(c) ==> self.cells[c] < self.next
        &&& forall|c: CellPosition, j: int|
            self.cells.contains_key(c) && 0 <= j < self.pool.len() ==> self.cells[c]
                != self.pool[j]
        &&& forall|c1: CellPosition, c2: CellPosition|
            self.cells.contains_key(c1) && self.cells.contains_key(c2) && c1 != c2
                ==> self.cells[c1] != self.cells[c2]
        &&& self.cells.dom().finite()
    }

    /// How many cells can still be spawned before the handle space is
    /// exhausted: pooled handles plus fresh handles.
    pub open spec fn headroom(self) -> int {
        self.pool.len() + (u64::MAX - self.next)
    }

    /// The handle the next spawn hands out: the last pooled handle if
    /// one is available, otherwise a fresh one.
    pub open spec fn spawn_handle(self) -> u64 {
        if self.pool.len() > 0 {
            self.pool.last()
        } else {
            self.next
        }
    }

    /// The state after one cell is spawned at `c`.
    pub open spec fn spawned(self, c: CellPosition) -> StoreModel {
        if self.pool.len() > 0 {
            StoreModel {
                cells: self.cells.insert(c, self.pool.last()),
                pool: self.pool.drop_last(),
                next: self.next,
            }
        } else {
            StoreModel {
                cells: self.cells.insert(c, self.next),
                pool: self.pool,
                next: (self.next + 1) as u64,
            }
        }
    }

    /// The state after the cell at `c` is killed: its entry leaves the
    /// alive map and its handle joins the pool.
    pub open spec fn killed(self, c: CellPosition) -> StoreModel {
        StoreModel {
            cells: self.cells.remove(c),
            pool: self.pool.push(self.cells[c]),
            next: self.next,
        }
    }
}

/// The state after every coordinate of `coords` is spawned, first to
/// last.
pub open spec fn spawned_all(m: StoreModel, coords: Seq<CellPosition>) -> StoreModel
    decreases coords.len(),
{
    if coords.len() == 0 {
        m
    } else {
        spawned_all(m.spawned(coords[0]), coords.drop_first())
    }
}

/// The state after every coordinate of `coords` is killed, first to
/// last.
pub open spec fn killed_all(m: StoreModel, coords: Seq<CellPosition>) -> StoreModel
    decreases coords.len(),
{
    if coords.len() == 0 {
        m
    } else {
        killed_all(m.killed(coords[0]), coords.drop_first())
    }
}

/// Spawning a batch and then one more cell is spawning the extended
/// batch.
pub proof fn lemma_spawned_all_snoc(m: StoreModel, coords: Seq<CellPosition>, c: CellPosition)
    ensures
        spawned_all(m, coords.push(c)) == spawned_all(m, coords).spawned(c),
    decreases coords.len(),
{
    if coords.len() == 0 {
        assert(coords.push(c)[0] == c);
        assert(coords.push(c).drop_first() =~= coords);
        assert(spawned_all(m, coords.push(c)) == spawned_all(
            m.spawned(c),
            coords.push(c).drop_first(),
        ));
        assert(spawned_all(m.spawned(c), coords.push(c).drop_first()) == spawned_all(
            m.spawned(c),
            coords,
        ));
        assert(spawned_all(m.spawned(c), coords) == m.spawned(c));
        assert(spawned_all(m, coords) == m);
    } else {
        assert(coords.push(c)[0] == coords[0]);
        assert(coords.push(c).drop_first() =~= coords.drop_first().push(c));
        lemma_spawned_all_snoc(m.spawned(coords[0]), coords.drop_first(), c);
        assert(spawned_all(m, coords.push(c)) == spawned_all(
            m.spawned(coords[0]),
            coords.drop_first().push(c),
        ));
        assert(spawned_all(m.spawned(coords[0]), coords.drop_first().push(c)) == spawned_all(
            m.spawned(coords[0]),
            coords.drop_first(),
        ).spawned(c));
        assert(spawned_all(m, coords) == spawned_all(m.spawned(coords[0]), coords.drop_first()));
    }
}

/// Killing a batch and then one more cell is killing the extended
/// batch.
pub proof fn lemma_killed_all_snoc(m: StoreModel, coords: Seq<CellPosition>, c: CellPosition)
    ensures
        killed_all(m, coords.push(c)) == killed_all(m, coords).killed(c),
    decreases coords.len(),
{
    if coords.len() == 0 {
        assert(coords.push(c)[0] == c);
        assert(coords.push(c).drop_first() =~= coords);
        assert(killed_all(m, coords.push(c)) == killed_all(
            m.killed(c),
            coords.push(c).drop_first(),
        ));
        assert(killed_all(m.killed(c), coords.push(c).drop_first()) == killed_all(
            m.killed(c),
            coords,
        ));
        assert(killed_all(m.killed(c), coords) == m.killed(c));
        assert(killed_all(m, coords) == m);
    } else {
        assert(coords.push(c)[0] == coords[0]);
        assert(coords.push(c).drop_first() =~= coords.drop_first().push(c));
        lemma_killed_all_snoc(m.killed(coords[0]), coords.drop_first(), c);
        assert(killed_all(m, coords.push(c)) == killed_all(
            m.killed(coords[0]),
            coords.drop_first().push(c),
        ));
        assert(killed_all(m.killed(coords[0]), coords.drop_first().push(c)) == killed_all(
            m.killed(coords[0]),
            coords.drop_first(),
        ).killed(c));
        assert(killed_all(m, coords) == killed_all(m.killed(coords[0]), coords.drop_first()));
    }
}

/// Killing a batch grows the pool by one handle per kill and leaves
/// the fresh-handle counter unchanged.
pub proof fn lemma_killed_all_shape(m: StoreModel, coords: Seq<CellPosition>)
    ensures
        killed_all(m, coords).pool.len() == m.pool.len() + coords.len(),
        killed_all(m, coords).next == m.next,
    decreases coords.len(),
{
    if coords.len() > 0 {
        lemma_killed_all_shape(m.killed(coords[0]), coords.drop_first());
    }
}

/// Spawning a batch drains pooled handles from the back before fresh
/// handles are allocated: the pool shrinks by the number of reused
/// handles, and the remaining spawns advance the fresh-handle counter.
pub proof fn lemma_spawned_all_shape(m: StoreModel, coords: Seq<CellPosition>)
    requires
        m.headroom() >= coords.len(),
    ensures
        spawned_all(m, coords).pool.len() == m.pool.len() - vstd::math::min(
            coords.len() as int,
            m.pool.len() as int,
        ),
        spawned_all(m, coords).next == m.next + coords.len() - vstd::math::min(
            coords.len() as int,
            m.pool.len() as int,
        ),
    decreases coords.len(),
{
    if coords.len() > 0 {
        assert(m.spawned(coords[0]).headroom() == m.headroom() - 1);
        lemma_spawned_all_shape(m.spawned(coords[0]), coords.drop_first());
    }
}

/// Extending a prefix by one element extends what it contains by
/// exactly that element.
proof fn lemma_take_contains_step(s: Seq<CellPosition>, i: int)
    requires
        0 <= i < s.len(),
    ensures
        forall|d: CellPosition|
            #[trigger] s.take(i + 1).contains(d) <==> (s.take(i).contains(d) || d == s[i]),
{
    assert forall|d: CellPosition| #[trigger]
        s.take(i + 1).contains(d) implies (s.take(i).contains(d) || d == s[i]) by {
        let j = choose|j: int| 0 <= j < s.take(i + 1).len() && #[trigger] s.take(i + 1)[j] == d;
        if j < i {
            assert(s.take(i)[j] == d);
            assert(s.take(i).contains(d));
        }
    };
    assert forall|d: CellPosition| (s.take(i).contains(d) || d == s[i]) implies #[trigger] s.take(
        i + 1,
    ).contains(d) by {
        if s.take(i).contains(d) {
            let j = choose|j: int| 0 <= j < s.take(i).len() && #[trigger] s.take(i)[j] == d;
            assert(s.take(i + 1)[j] == d);
        } else {
            assert(s.take(i + 1)[i] == d);
        }
    };
}

/// Spawning keeps the store well-formed.
pub proof fn lemma_spawned_inv(m: StoreModel, c: CellPosition)
    requires
        m.inv(),
        !m.cells.contains_key(c),
        m.headroom() >= 1,
    ensures
        m.spawned(c).inv(),
{
    let m1 = m.spawned(c);
    if m.pool.len() > 0 {
        assert(forall|j: int| 0 <= j < m1.pool.len() ==> m1.pool[j] == m.pool[j]);
    }
}

/// Killing keeps the store well-formed.
pub proof fn lemma_killed_inv(m: StoreModel, c: CellPosition)
    requires
        m.inv(),
        m.cells.contains_key(c),
    ensures
        m.killed(c).inv(),
{
    let m1 = m.killed(c);
    assert(forall|j: int| 0 <= j < m.pool.len() ==> m1.pool[j] == m.pool[j]);
    assert(m1.pool.last() == m.cells[c]);
}

/// Spawning a cell at a free coordinate and then killing it leaves the
/// coordinate absent from the alive map, with the handle it had held
/// present in the dead pool exactly once: the pool contains it and the
/// pool holds no duplicates.
pub proof fn lemma_spawn_then_kill(m: StoreModel, c: CellPosition)
    requires
        m.inv(),
        !m.cells.contains_key(c),
        m.headroom() >= 1,
    ensures
        ({
            let h = m.spawn_handle();
            let after = m.spawned(c).killed(c);
            &&& !after.cells.contains_key(c)
            &&& after.pool.contains(h)
            &&& after.pool.no_duplicates()
        }),
{
    let h = m.spawn_handle();
    let m1 = m.spawned(c);
    lemma_spawned_inv(m, c);
    let m2 = m1.killed(c);
    lemma_killed_inv(m1, c);
    assert(m2.pool.last() == h);
    assert(m2.pool.contains(h));
}

/// The authoritative alive-cell set plus the pool of recyclable dead
/// handles.
pub struct CellStore {
    /// Alive coordinates, each mapped to the handle occupying it.
    pub cells: FxHashMap<CellPosition, u64>,
    /// Handles of dead cells kept for reuse.
    pub dead_pool: DeadCellPool,
    /// The smallest handle never allocated yet.
    pub next_handle: u64,
}

impl CellStore {
    /// The mathematical state of this store.
    pub open spec fn model(self) -> StoreModel {
        StoreModel {
            cells: self.cells@,
            pool: self.dead_pool.entities@,
            next: self.next_handle,
        }
    }

    /// Well-formedness of the store.
    pub open spec fn wf(self) -> bool {
        self.model().inv()
    }

    /// The alive-cell map: each alive coordinate with its handle.
    pub open spec fn alive(self) -> Map<CellPosition, u64> {
        self.cells@
    }

    /// The alive coordinates as mathematical pairs.
    pub open spec fn alive_set(self) -> Set<(int, int)> {
        alive_of(self.cells@)
    }

    /// The pooled dead handles.
    pub open spec fn pool(self) -> Seq<u64> {
        self.dead_pool.entities@
    }

    /// An empty store.
    pub fn new() -> (s: CellStore)
        ensures
            s.wf(),
            s.alive() == Map::<CellPosition, u64>::empty(),
            s.pool() == Seq::<u64>::empty(),
            s.model().next == 0,
    {
        CellStore { cells: fx_map_new(), dead_pool: DeadCellPool { entities: Vec::new() }, next_handle: 0 }
    }

    /// Whether the cell at `c` is currently alive.
    pub fn is_alive(&self, c: CellPosition) -> (r: bool)
        ensures
            r == self.alive().contains_key(c),
    {
        fx_map_contains(&self.cells, &c)
    }

    /// The number of currently-alive cells.
    pub fn alive_count(&self) -> (r: usize)
        ensures
            r == self.alive().dom().len(),
    {
        fx_map_len(&self.cells)
    }

    /// The number of pooled dead handles.
    pub fn pool_len(&self) -> (r: usize)
        ensures
            r == self.pool().len(),
    {
        self.dead_pool.entities.len()
    }

    /// Every alive coordinate with its handle, in no fixed order,
    /// each exactly once.
    pub fn alive_entries(&self) -> (r: Vec<(CellPosition, u64)>)
        ensures
            r@.len() == self.alive().dom().len(),
            forall|j: int|
                0 <= j < r@.len() ==> #[trigger] self.alive().contains_key(r@[j].0) && self.alive()[
                    r@[j].0
                ] == r@[j].1,
            forall|j: int, l: int| 0 <= j < l < r@.len() ==> r@[j].0 != r@[l].0,
            forall|k: CellPosition|
                #[trigger] self.alive().contains_key(k) ==> exists|j: int|
                    0 <= j < r@.len() && r@[j].0 == k,
    {
        let r = fx_map_entries(&self.cells);
        proof {
            assert forall|j: int| 0 <= j < r@.len() implies #[trigger] self.alive().contains_key(
                r@[j].0,
            ) && self.alive()[r@[j].0] == r@[j].1 by {
                assert(self.cells@.contains_key(r@[j].0));
            };
        }
        r
    }

    /// Spawns a cell at the free coordinate `c` and hands back the
    /// handle it received: the last pooled handle if one is available,
    /// otherwise a freshly allocated one.
    pub fn spawn_cell(&mut self, c: CellPosition) -> (h: u64)
        requires
            old(self).wf(),
            !old(self).alive().contains_key(c),
            old(self).model().headroom() >= 1,
        ensures
            final (self).model() == old(self).model().spawned(c),
            h == old(self).model().spawn_handle(),
            final (self).wf(),
    {
        proof {
            lemma_spawned_inv(old(self).model(), c);
        }
        let h = match self.dead_pool.entities.pop() {
            Some(h) => h,
            None => {
                let h = self.next_handle;
                self.next_handle = self.next_handle + 1;
                h
            },
        };
        fx_map_insert(&mut self.cells, c, h);
        h
    }

    /// Kills the cell alive at `c`: its entry leaves the alive map and
    /// its handle moves into the dead pool, retained for reuse.
    pub fn kill_cell(&mut self, c: CellPosition)
        requires
            old(self).wf(),
            old(self).alive().contains_key(c),
        ensures
            final (self).model() == old(self).model().killed(c),
            final (self).wf(),
    {
        proof {
            lemma_killed_inv(old(self).model(), c);
        }
        match fx_map_remove(&mut self.cells, &c) {
            Some(h) => {
                self.dead_pool.entities.push(h);
            },
            None => {
                proof {
                    assert(false);
                }
            },
        }
    }

    /// Spawns a cell at every coordinate of `coords`, first to last.
    /// None of them may be alive already: spawn candidates are filtered
    /// against the alive set before being passed in.
    pub fn spawn(&mut self, coords: &Vec<CellPosition>)
        requires
            old(self).wf(),
            coords@.no_duplicates(),
            forall|j: int|
                0 <= j < coords@.len() ==> !old(self).alive().contains_key(coords@[j]),
            old(self).model().headroom() >= coords@.len(),
        ensures
            final (self).model() == spawned_all(old(self).model(), coords@),
            final (self).wf(),
            forall|c: CellPosition|
                #[trigger] final (self).alive().contains_key(c) <==> (old(
                    self,
                ).alive().contains_key(c) || coords@.contains(c)),
            final (self).model().headroom() == old(self).model().headroom() - coords@.len(),
    {
        let n = coords.len();
        let mut i: usize = 0;
        proof {
            assert(coords@.take(0) =~= Seq::<CellPosition>::empty());
        }
        while i < n
            invariant
                i <= n,
                n == coords@.len(),
                coords@.no_duplicates(),
                self.wf(),
                self.model() == spawned_all(old(self).model(), coords@.take(i as int)),
                self.model().headroom() >= n - i,
                forall|j: int| i <= j < n ==> !self.alive().contains_key(coords@[j]),
                forall|c: CellPosition|
                    #[trigger] self.alive().contains_key(c) <==> (old(
                        self,
                    ).alive().contains_key(c) || coords@.take(i as int).contains(c)),
                self.model().headroom() == old(self).model().headroom() - i,
            decreases n - i,
        {
            let c = coords[i];
            proof {
                lemma_spawned_all_snoc(old(self).model(), coords@.take(i as int), c);
                assert(coords@.take(i as int).push(c) =~= coords@.take(i as int + 1));
            }
            self.spawn_cell(c);
            proof {
                lemma_take_contains_step(coords@, i as int);
            }
            i = i + 1;
        }
        proof {
            assert(coords@.take(n as int) =~= coords@);
        }
    }

    /// Kills the cell at every coordinate of `coords`, first to last.
    /// All of them must be alive; their handles move into the dead
    /// pool.
    pub fn kill(&mut self, coords: &Vec<CellPosition>)
        requires
            old(self).wf(),
            coords@.no_duplicates(),
            forall|j: int| 0 <= j < coords@.len() ==> old(self).alive().contains_key(coords@[j]),
        ensures
            final (self).model() == killed_all(old(self).model(), coords@),
            final (self).wf(),
            forall|c: CellPosition|
                #[trigger] final (self).alive().contains_key(c) <==> (old(
                    self,
                ).alive().contains_key(c) && !coords@.contains(c)),
            final (self).pool().len() == old(self).pool().len() + coords@.len(),
            final (self).model().next == old(self).model().next,
            forall|j: int| 0 <= j < old(self).pool().len() ==> final (self).pool()[j] == old(
                self,
            ).pool()[j],
            forall|j: int|
                0 <= j < coords@.len() ==> final (self).pool()[old(self).pool().len() + j] == old(
                    self,
                ).alive()[coords@[j]],
    {
        let n = coords.len();
        let mut i: usize = 0;
        proof {
            assert(coords@.take(0) =~= Seq::<CellPosition>::empty());
        }
        while i < n
            invariant
                i <= n,
                n == coords@.len(),
                coords@.no_duplicates(),
                self.wf(),
                self.model() == killed_all(old(self).model(), coords@.take(i as int)),
                forall|j: int| i <= j < n ==> self.alive().contains_key(coords@[j]),
                forall|j: int|
                    i <= j < n ==> self.alive()[coords@[j]] == old(self).alive()[coords@[j]],
                forall|c: CellPosition|
                    #[trigger] self.alive().contains_key(c) <==> (old(
                        self,
                    ).alive().contains_key(c) && !coords@.take(i as int).contains(c)),
                self.pool().len() == old(self).pool().len() + i,
                self.model().next == old(self).model().next,
                forall|j: int|
                    0 <= j < old(self).pool().len() ==> self.pool()[j] == old(self).pool()[j],
                forall|j: int|
                    0 <= j < i ==> self.pool()[old(self).pool().len() + j] == old(self).alive()[
                        coords@[j]
                    ],
            decreases n - i,
        {
            let c = coords[i];
            proof {
                lemma_killed_all_snoc(old(self).model(), coords@.take(i as int), c);
                assert(coords@.take(i as int).push(c) =~= coords@.take(i as int + 1));
            }
            self.kill_cell(c);
            proof {
                lemma_take_contains_step(coords@, i as int);
            }
            i = i + 1;
        }
        proof {
            assert(coords@.take(n as int) =~= coords@);
        }
    }

    /// Removes every living cell, moving all handles into the dead
    /// pool.
    pub fn clear(&mut self)
        requires
            old(self).wf(),
        ensures
            final (self).wf(),
            final (self).alive().dom() =~= Set::<CellPosition>::empty(),
            final (self).pool().len() == old(self).pool().len() + old(self).alive().dom().len(),
            final (self).model().next == old(self).model().next,
            forall|j: int| 0 <= j < old(self).pool().len() ==> final (self).pool()[j] == old(
                self,
            ).pool()[j],
            forall|h: u64|
                #[trigger] final (self).pool().contains(h) <==> (old(self).pool().contains(h)
                    || exists|c: CellPosition|
                    #[trigger] old(self).alive().contains_key(c) && old(self).alive()[c] == h),
    {
        let entries = self.alive_entries();
        let n = entries.len();
        let mut coords: Vec<CellPosition> = Vec::new();
        let mut i: usize = 0;
        while i < n
            invariant
                i <= n,
                n == entries@.len(),
                coords@.len() == i,
                forall|j: int| 0 <= j < i ==> coords@[j] == entries@[j].0,
            decreases n - i,
        {
            coords.push(entries[i].0);
            i = i + 1;
        }
        proof {
            assert(forall|j: int, l: int| 0 <= j < l < coords@.len() ==> coords@[j] != coords@[l]);
            assert forall|c: CellPosition| #[trigger]
                self.alive().contains_key(c) implies coords@.contains(c) by {
                let j = choose|j: int| 0 <= j < entries@.len() && entries@[j].0 == c;
                assert(coords@[j] == c);
            };
        }
        self.kill(&coords);
        proof {
            assert forall|c: CellPosition| !(#[trigger] self.alive().contains_key(c)) by {
                if old(self).alive().contains_key(c) {
                    assert(coords@.contains(c));
                }
            };
            let p0 = old(self).pool().len() as int;
            assert forall|h: u64| #[trigger]
                self.pool().contains(h) implies (old(self).pool().contains(h)
                || exists|c: CellPosition|
                #[trigger] old(self).alive().contains_key(c) && old(self).alive()[c] == h) by {
                let j = choose|j: int| 0 <= j < self.pool().len() && #[trigger] self.pool()[j] == h;
                if j < p0 {
                    assert(old(self).pool()[j] == h);
                } else {
                    let c = coords@[j - p0];
                    assert(old(self).alive().contains_key(c) && old(self).alive()[c] == h);
                }
            };
            assert forall|h: u64|
                (old(self).pool().contains(h) || exists|c: CellPosition|
                    #[trigger] old(self).alive().contains_key(c) && old(self).alive()[c]
                        == h) implies #[trigger] self.pool().contains(h) by {
                if old(self).pool().contains(h) {
                    let j = choose|j: int|
                        0 <= j < old(self).pool().len() && #[trigger] old(self).pool()[j] == h;
                    assert(self.pool()[j] == h);
                } else {
                    let c = choose|c: CellPosition|
                        #[trigger] old(self).alive().contains_key(c) && old(self).alive()[c] == h;
                    let l = choose|l: int|
                        0 <= l < coords@.len() && #[trigger] coords@[l] == c;
                    assert(self.pool()[p0 + l] == h);
                }
            };
        }
    }

    /// Kills the cell at `c` when it is alive, spawns one there when it
    /// is not: the toggle behind painting and erasing cells by hand.
    pub fn toggle_cell(&mut self, c: CellPosition)
        requires
            old(self).wf(),
            old(self).alive().contains_key(c) || old(self).model().headroom() >= 1,
        ensures
            final (self).model() == if old(self).alive().contains_key(c) {
                old(self).model().killed(c)
            } else {
                old(self).model().spawned(c)
            },
            final (self).wf(),
    {
        if self.is_alive(c) {
            self.kill_cell(c);
        } else {
            self.spawn_cell(c);
        }
    }
}

/// Tracks the last painted position during a drag, so that holding
/// the mouse button over one cell toggles it only once.
pub struct LastPaintedPosition {
    /// The position painted most recently in the current drag, if any.
    pub position: Option<CellPosition>,
}

impl Default for LastPaintedPosition {
    /// No drag in progress.
    fn default() -> (r: LastPaintedPosition)
        ensures
            r.position is None,
    {
        LastPaintedPosition { position: None }
    }
}

/// Paints or erases the cell under the cursor during a click or drag:
/// the cell is toggled unless it was the last position painted in
/// this drag, and it becomes the last painted position.
pub fn paint_cell(store: &mut CellStore, last: &mut LastPaintedPosition, c: CellPosition) -> (painted:
    bool)
    requires
        old(store).wf(),
        old(store).alive().contains_key(c) || old(store).model().headroom() >= 1,
    ensures
        final (store).wf(),
        painted == (old(last).position != Some(c)),
        final (last).position == Some(c),
        final (store).model() == if !painted {
            old(store).model()
        } else if old(store).alive().contains_key(c) {
            old(store).model().killed(c)
        } else {
            old(store).model().spawned(c)
        },
{
    let skip = match last.position {
        Some(p) => p == c,
        None => false,
    };
    if skip {
        return false;
    }
    last.position = Some(c);
    store.toggle_cell(c);
    true
}

/// Forgets the last painted position when the mouse button is
/// released, so the next drag starts afresh.
pub fn reset_paint_position(last: &mut LastPaintedPosition)
    ensures
        final (last).position is None,
{
    last.position = None;
}

} // verus!
