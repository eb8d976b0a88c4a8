//! The generation engine: Moore-neighborhood counting over the alive
//! set, the kill/spawn classification of one tick, and the scheduler
//! that gates ticks by a timer or by a single-step request.

use crate::cellule::{
    alive_of, in_coord_range, killed_all, lemma_killed_all_shape, lemma_spawned_all_shape, pos_of,
    spawned_all, CellPosition, CellStore, StoreModel,
};
use crate::fxmap::{fx_map_entries, fx_map_get_copied, fx_map_insert, fx_map_with_capacity};
use crate::rules::{
    adjacent, lemma_count_after_insert, lemma_positive_count_has_neighbor, nbr_count,
    next_generation, should_cell_be_born, should_cell_survive, spec_born, spec_survives,
};
use rustc_hash::FxHashMap;
use vstd::prelude::*;

verus! {

/// Whether a cell position lies strictly inside the representable
/// range, so that all eight of its neighbors are representable too.
pub open spec fn strictly_inside(c: CellPosition) -> bool {
    isize::MIN < c.x < isize::MAX && isize::MIN < c.y < isize::MAX
}

/// Whether every alive coordinate lies strictly inside the
/// representable range.
pub open spec fn all_inside(m: Map<CellPosition, u64>) -> bool {
    forall|c: CellPosition| #[trigger] m.contains_key(c) ==> strictly_inside(c)
}

/// The mathematical coordinates of the first `i` cells of `s`.
pub open spec fn views_up_to(s: Seq<CellPosition>, i: int) -> Set<(int, int)> {
    Set::new(|p: (int, int)| exists|j: int| 0 <= j < i && s[j]@ == p)
}

/// The mathematical coordinates of all cells of `s`.
pub open spec fn views_of(s: Seq<CellPosition>) -> Set<(int, int)> {
    views_up_to(s, s.len() as int)
}

/// Taking one more cell into account adds exactly its coordinate.
proof fn lemma_views_up_to_step(s: Seq<CellPosition>, i: int)
    requires
        0 <= i < s.len(),
    ensures
        views_up_to(s, i + 1) =~= views_up_to(s, i).insert(s[i]@),
{
    assert forall|p: (int, int)| #[trigger]
        views_up_to(s, i + 1).contains(p) implies views_up_to(s, i).insert(s[i]@).contains(p) by {
        let j = choose|j: int| 0 <= j < i + 1 && #[trigger] s[j]@ == p;
        if j < i {
            assert(views_up_to(s, i).contains(p));
        }
    };
    assert forall|p: (int, int)| #[trigger]
        views_up_to(s, i).insert(s[i]@).contains(p) implies views_up_to(s, i + 1).contains(p) by {
        if views_up_to(s, i).contains(p) {
            let j = choose|j: int| 0 <= j < i && #[trigger] s[j]@ == p;
            assert(0 <= j < i + 1 && s[j]@ == p);
        } else {
            assert(0 <= i < i + 1 && s[i]@ == p);
        }
    };
}

/// A cell list without duplicates never holds the coordinate of a
/// later cell among the earlier ones.
proof fn lemma_views_up_to_fresh(s: Seq<CellPosition>, i: int)
    requires
        0 <= i < s.len(),
        s.no_duplicates(),
    ensures
        !views_up_to(s, i).contains(s[i]@),
{
    if views_up_to(s, i).contains(s[i]@) {
        let j = choose|j: int| 0 <= j < i && #[trigger] s[j]@ == s[i]@;
        assert(s[j].x == s[i].x && s[j].y == s[i].y);
        assert(s[j] == s[i]);
    }
}

/// The stored neighbor count of `k`, read as 0 when `k` has no entry.
pub open spec fn cnt_at(m: Map<CellPosition, usize>, k: CellPosition) -> int {
    if m.contains_key(k) {
        m[k] as int
    } else {
        0
    }
}

/// Raises the stored count of `k` by one, initializing a missing
/// entry to 0 before the increment.
fn bump(counts: &mut FxHashMap<CellPosition, usize>, k: CellPosition)
    requires
        cnt_at(old(counts)@, k) < usize::MAX,
    ensures
        cnt_at(final (counts)@, k) == cnt_at(old(counts)@, k) + 1,
        forall|d: CellPosition| d != k ==> cnt_at(final (counts)@, d) == cnt_at(old(counts)@, d),
        final (counts)@.dom() =~= old(counts)@.dom().insert(k),
{
    let cur = match fx_map_get_copied(counts, &k) {
        Some(v) => v,
        None => 0,
    };
    fx_map_insert(counts, k, cur + 1);
}

/// Raises the stored count of each of the eight Moore neighbors of
/// `cell` by one, taking the count map from reflecting the alive set
/// `s` to reflecting `s` with `cell` inserted.
#[verifier::rlimit(100)]
#[verifier::spinoff_prover]
fn bump_neighbors(
    counts: &mut FxHashMap<CellPosition, usize>,
    cell: CellPosition,
    Ghost(s): Ghost<Set<(int, int)>>,
)
    requires
        strictly_inside(cell),
        !s.contains(cell@),
        forall|k: CellPosition| #[trigger] cnt_at(old(counts)@, k) == nbr_count(s, k@),
        forall|k: CellPosition| #[trigger]
            old(counts)@.contains_key(k) ==> cnt_at(old(counts)@, k) > 0,
        old(counts)@.dom().finite(),
    ensures
        forall|k: CellPosition| #[trigger]
            cnt_at(final (counts)@, k) == nbr_count(s.insert(cell@), k@),
        forall|k: CellPosition| #[trigger]
            final (counts)@.contains_key(k) ==> cnt_at(final (counts)@, k) > 0,
        final (counts)@.dom().finite(),
        final (counts)@.dom().len() <= old(counts)@.dom().len() + 8,
{
    let ghost dom_pre = counts@.dom();
    let x = cell.x;
    let y = cell.y;
    let n1 = CellPosition { x: x - 1, y: y - 1 };
    let n2 = CellPosition { x, y: y - 1 };
    let n3 = CellPosition { x: x + 1, y: y - 1 };
    let n4 = CellPosition { x: x - 1, y };
    let n5 = CellPosition { x: x + 1, y };
    let n6 = CellPosition { x: x - 1, y: y + 1 };
    let n7 = CellPosition { x, y: y + 1 };
    let n8 = CellPosition { x: x + 1, y: y + 1 };
    bump(counts, n1);
    bump(counts, n2);
    bump(counts, n3);
    bump(counts, n4);
    bump(counts, n5);
    bump(counts, n6);
    bump(counts, n7);
    bump(counts, n8);
    proof {
        assert forall|k: CellPosition| #[trigger]
            cnt_at(counts@, k) == nbr_count(s.insert(cell@), k@) by {
            lemma_count_after_insert(s, cell@, k@);
            if k == n1 || k == n2 || k == n3 || k == n4 || k == n5 || k == n6 || k == n7 || k
                == n8 {
                assert(adjacent(cell@, k@));
                assert(cnt_at(counts@, k) == nbr_count(s, k@) + 1);
            } else {
                assert(cnt_at(counts@, k) == nbr_count(s, k@));
                assert(!adjacent(cell@, k@)) by {
                    if adjacent(cell@, k@) {
                        let dx = k@.0 - cell@.0;
                        let dy = k@.1 - cell@.1;
                        if dx == -1 && dy == -1 {
                            assert(k.x == n1.x && k.y == n1.y);
                        } else if dx == 0 && dy == -1 {
                            assert(k.x == n2.x && k.y == n2.y);
                        } else if dx == 1 && dy == -1 {
                            assert(k.x == n3.x && k.y == n3.y);
                        } else if dx == -1 && dy == 0 {
                            assert(k.x == n4.x && k.y == n4.y);
                        } else if dx == 1 && dy == 0 {
                            assert(k.x == n5.x && k.y == n5.y);
                        } else if dx == -1 && dy == 1 {
                            assert(k.x == n6.x && k.y == n6.y);
                        } else if dx == 0 && dy == 1 {
                            assert(k.x == n7.x && k.y == n7.y);
                        } else {
                            assert(dx == 1 && dy == 1);
                            assert(k.x == n8.x && k.y == n8.y);
                        }
                    }
                };
            }
        };
        assert(counts@.dom() =~= dom_pre.insert(n1).insert(n2).insert(n3).insert(n4).insert(
            n5,
        ).insert(n6).insert(n7).insert(n8));
    }
}

/// Calculates neighbor counts for all relevant positions.
///
/// Returns a map holding, for every position with at least one living
/// neighbor, the number of living neighbors it has — alive cells and
/// their neighboring empty positions alike. A cell's own count never
/// includes itself. The internal map is pre-sized to nine entries per
/// alive cell to avoid rehashing.
pub fn calculate_neighbor_counts(alive_cells: &Vec<CellPosition>) -> (counts: FxHashMap<
    CellPosition,
    usize,
>)
    requires
        alive_cells@.no_duplicates(),
        forall|j: int| 0 <= j < alive_cells@.len() ==> strictly_inside(alive_cells@[j]),
    ensures
        forall|k: CellPosition| #[trigger]
            counts@.contains_key(k) <==> nbr_count(views_of(alive_cells@), k@) > 0,
        forall|k: CellPosition| #[trigger]
            cnt_at(counts@, k) == nbr_count(views_of(alive_cells@), k@),
        counts@.dom().finite(),
        counts@.dom().len() <= 8 * alive_cells@.len(),
{
    let n = alive_cells.len();
    let cap = match n.checked_mul(9) {
        Some(c) => c,
        None => usize::MAX,
    };
    let mut counts: FxHashMap<CellPosition, usize> = fx_map_with_capacity(cap);
    let mut idx: usize = 0;
    while idx < n
        invariant
            idx <= n,
            n == alive_cells@.len(),
            alive_cells@.no_duplicates(),
            forall|j: int| 0 <= j < n ==> strictly_inside(alive_cells@[j]),
            forall|k: CellPosition| #[trigger]
                cnt_at(counts@, k) == nbr_count(views_up_to(alive_cells@, idx as int), k@),
            forall|k: CellPosition| #[trigger] counts@.contains_key(k) ==> cnt_at(counts@, k) > 0,
            counts@.dom().finite(),
            counts@.dom().len() <= 8 * idx,
        decreases n - idx,
    {
        let cell = alive_cells[idx];
        let ghost s_pre = views_up_to(alive_cells@, idx as int);
        proof {
            lemma_views_up_to_fresh(alive_cells@, idx as int);
        }
        bump_neighbors(&mut counts, cell, Ghost(s_pre));
        proof {
            lemma_views_up_to_step(alive_cells@, idx as int);
        }
        idx = idx + 1;
    }
    proof {
        assert(views_of(alive_cells@) == views_up_to(alive_cells@, n as int));
        assert forall|k: CellPosition| #[trigger]
            counts@.contains_key(k) <==> nbr_count(views_of(alive_cells@), k@) > 0 by {
            assert(cnt_at(counts@, k) == nbr_count(views_up_to(alive_cells@, n as int), k@));
        };
    }
    counts
}

/// The alive coordinates handed out by `CellStore::alive_entries`,
/// read off as mathematical pairs, are exactly the store's alive set.
proof fn lemma_positions_cover_alive(
    m: Map<CellPosition, u64>,
    positions: Seq<CellPosition>,
    entries: Seq<(CellPosition, u64)>,
)
    requires
        positions.len() == entries.len(),
        forall|j: int| 0 <= j < positions.len() ==> positions[j] == entries[j].0,
        forall|j: int| 0 <= j < entries.len() ==> #[trigger] m.contains_key(entries[j].0),
        forall|k: CellPosition|
            #[trigger] m.contains_key(k) ==> exists|j: int|
                0 <= j < entries.len() && entries[j].0 == k,
    ensures
        views_of(positions) =~= alive_of(m),
{
    assert forall|p: (int, int)| #[trigger]
        views_of(positions).contains(p) implies alive_of(m).contains(p) by {
        let j = choose|j: int| 0 <= j < positions.len() && #[trigger] positions[j]@ == p;
        assert(m.contains_key(positions[j]));
        assert(in_coord_range(p));
        assert(pos_of(p) == positions[j]);
    };
    assert forall|p: (int, int)| #[trigger]
        alive_of(m).contains(p) implies views_of(positions).contains(p) by {
        let c = pos_of(p);
        let j = choose|j: int| 0 <= j < entries.len() && #[trigger] entries[j].0 == c;
        assert(positions[j]@ == p);
        assert(views_up_to(positions, positions.len() as int).contains(p));
    };
}

/// Computes the kill list and the spawn list of one generation over
/// the alive set of `store`, both without duplicates: the alive cells
/// whose neighbor count fails the survival rule, and the dead cells
/// whose neighbor count meets the birth rule. The two lists are
/// disjoint by construction: a kill is alive, a spawn is not.
pub fn calculate_generation_changes(store: &CellStore) -> (r: (Vec<CellPosition>, Vec<CellPosition>))
    requires
        store.wf(),
        all_inside(store.alive()),
    ensures
        r.0@.no_duplicates(),
        r.1@.no_duplicates(),
        forall|c: CellPosition|
            #[trigger] r.0@.contains(c) <==> (store.alive().contains_key(c) && !spec_survives(
                nbr_count(store.alive_set(), c@),
            )),
        forall|c: CellPosition|
            #[trigger] r.1@.contains(c) <==> (!store.alive().contains_key(c) && spec_born(
                nbr_count(store.alive_set(), c@),
            )),
        forall|c: CellPosition| !(#[trigger] r.0@.contains(c) && #[trigger] r.1@.contains(c)),
        r.1@.len() <= 8 * store.alive().dom().len(),
{
    let entries = store.alive_entries();
    let n = entries.len();
    let mut positions: Vec<CellPosition> = Vec::new();
    let mut i: usize = 0;
    while i < n
        invariant
            i <= n,
            n == entries@.len(),
            positions@.len() == i,
            forall|j: int| 0 <= j < i ==> positions@[j] == entries@[j].0,
        decreases n - i,
    {
        positions.push(entries[i].0);
        i = i + 1;
    }
    proof {
        assert(forall|j: int, l: int|
            0 <= j < l < positions@.len() ==> positions@[j] != positions@[l]);
        assert forall|j: int| 0 <= j < n implies strictly_inside(#[trigger] positions@[j]) by {
            assert(store.alive().contains_key(entries@[j].0));
        };
        lemma_positions_cover_alive(store.alive(), positions@, entries@);
    }
    let ghost s = store.alive_set();
    let counts = calculate_neighbor_counts(&positions);

    let mut kills: Vec<CellPosition> = Vec::new();
    let mut i: usize = 0;
    while i < n
        invariant
            i <= n,
            n == entries@.len(),
            store.wf(),
            s == store.alive_set(),
            forall|j: int|
                0 <= j < entries@.len() ==> #[trigger] store.alive().contains_key(entries@[j].0),
            forall|j: int, l: int| 0 <= j < l < entries@.len() ==> entries@[j].0 != entries@[l].0,
            forall|k: CellPosition| #[trigger] cnt_at(counts@, k) == nbr_count(s, k@),
            forall|j: int|
                0 <= j < kills@.len() ==> exists|l: int|
                    0 <= l < i && entries@[l].0 == #[trigger] kills@[j],
            forall|j: int|
                0 <= j < kills@.len() ==> store.alive().contains_key(#[trigger] kills@[j])
                    && !spec_survives(nbr_count(s, kills@[j]@)),
            forall|l: int|
                0 <= l < i && !spec_survives(nbr_count(s, #[trigger] entries@[l].0@))
                    ==> kills@.contains(entries@[l].0),
            kills@.no_duplicates(),
        decreases n - i,
    {
        let c = entries[i].0;
        let cnt = match fx_map_get_copied(&counts, &c) {
            Some(v) => v,
            None => 0,
        };
        proof {
            assert(cnt == cnt_at(counts@, c));
        }
        let ghost kills_pre = kills@;
        if !should_cell_survive(cnt) {
            proof {
                assert(!kills@.contains(c)) by {
                    if kills@.contains(c) {
                        let j = choose|j: int|
                            0 <= j < kills@.len() && #[trigger] kills@[j] == c;
                        let l = choose|l: int| 0 <= l < i && #[trigger] entries@[l].0 == c;
                    }
                };
            }
            kills.push(c);
        }
        proof {
            assert forall|l: int|
                0 <= l < i + 1 && !spec_survives(
                    nbr_count(s, #[trigger] entries@[l].0@),
                ) implies kills@.contains(entries@[l].0) by {
                if l < i {
                    let j = choose|j: int|
                        0 <= j < kills_pre.len() && #[trigger] kills_pre[j] == entries@[l].0;
                    assert(kills@[j] == entries@[l].0);
                } else {
                    assert(kills@[kills@.len() - 1] == c);
                }
            };
        }
        i = i + 1;
    }
    proof {
        assert forall|c: CellPosition| #[trigger]
            kills@.contains(c) <==> (store.alive().contains_key(c) && !spec_survives(
                nbr_count(s, c@),
            )) by {
            if store.alive().contains_key(c) && !spec_survives(nbr_count(s, c@)) {
                let l = choose|l: int| 0 <= l < entries@.len() && #[trigger] entries@[l].0 == c;
                assert(kills@.contains(entries@[l].0));
            }
        };
    }

    let centries = fx_map_entries(&counts);
    let cn = centries.len();
    let mut births: Vec<CellPosition> = Vec::new();
    let mut i: usize = 0;
    while i < cn
        invariant
            i <= cn,
            cn == centries@.len(),
            store.wf(),
            s == store.alive_set(),
            forall|j: int|
                0 <= j < centries@.len() ==> #[trigger] counts@.contains_key(centries@[j].0)
                    && counts@[centries@[j].0] == centries@[j].1,
            forall|j: int, l: int| 0 <= j < l < centries@.len() ==> centries@[j].0 != centries@[l].0,
            forall|k: CellPosition| #[trigger] cnt_at(counts@, k) == nbr_count(s, k@),
            forall|j: int|
                0 <= j < births@.len() ==> exists|l: int|
                    0 <= l < i && centries@[l].0 == #[trigger] births@[j],
            forall|j: int|
                0 <= j < births@.len() ==> !store.alive().contains_key(#[trigger] births@[j])
                    && spec_born(nbr_count(s, births@[j]@)),
            forall|l: int|
                0 <= l < i && !store.alive().contains_key(#[trigger] centries@[l].0) && spec_born(
                    nbr_count(s, centries@[l].0@),
                ) ==> births@.contains(centries@[l].0),
            births@.no_duplicates(),
            births@.len() <= i,
        decreases cn - i,
    {
        let c = centries[i].0;
        let cnt = centries[i].1;
        let ghost births_pre = births@;
        let born = should_cell_be_born(cnt);
        let alive_now = store.is_alive(c);
        if born && !alive_now {
            proof {
                assert(!births@.contains(c)) by {
                    if births@.contains(c) {
                        let j = choose|j: int|
                            0 <= j < births@.len() && #[trigger] births@[j] == c;
                        let l = choose|l: int| 0 <= l < i && #[trigger] centries@[l].0 == c;
                    }
                };
                assert(counts@[c] == cnt_at(counts@, c));
            }
            births.push(c);
        }
        proof {
            assert forall|l: int|
                0 <= l < i + 1 && !store.alive().contains_key(#[trigger] centries@[l].0)
                    && spec_born(nbr_count(s, centries@[l].0@)) implies births@.contains(
                centries@[l].0,
            ) by {
                if l < i {
                    let j = choose|j: int|
                        0 <= j < births_pre.len() && #[trigger] births_pre[j] == centries@[l].0;
                    assert(births@[j] == centries@[l].0);
                } else {
                    assert(counts@[c] == cnt_at(counts@, c));
                    assert(births@[births@.len() - 1] == c);
                }
            };
        }
        i = i + 1;
    }
    proof {
        assert forall|c: CellPosition| #[trigger]
            births@.contains(c) <==> (!store.alive().contains_key(c) && spec_born(
                nbr_count(s, c@),
            )) by {
            if !store.alive().contains_key(c) && spec_born(nbr_count(s, c@)) {
                assert(cnt_at(counts@, c) == nbr_count(s, c@));
                assert(counts@.contains_key(c));
                let l = choose|l: int| 0 <= l < centries@.len() && #[trigger] centries@[l].0 == c;
                assert(births@.contains(centries@[l].0));
            }
        };
        assert(births@.len() <= 8 * store.alive().dom().len());
    }
    (kills, births)
}

/// How one tick moves the store model `m` to `m2`: the generation's
/// kill list and spawn list (each free of duplicates, in no fixed
/// order) are characterized by the B3/S23 rule over `m`'s alive set,
/// the kills are applied first, and the spawns then draw pooled
/// handles from the back before allocating fresh ones — so the pool
/// grows by one handle per kill and shrinks by one per reused spawn,
/// and only the spawns beyond the pool advance the fresh-handle
/// counter.
pub open spec fn tick_transition(
    m: StoreModel,
    m2: StoreModel,
    kills: Seq<CellPosition>,
    births: Seq<CellPosition>,
) -> bool {
    let s = alive_of(m.cells);
    let reused = vstd::math::min(births.len() as int, m.pool.len() as int + kills.len() as int);
    &&& kills.no_duplicates()
    &&& births.no_duplicates()
    &&& (forall|c: CellPosition|
        #[trigger] kills.contains(c) <==> (m.cells.contains_key(c) && !spec_survives(
            nbr_count(s, c@),
        )))
    &&& (forall|c: CellPosition|
        #[trigger] births.contains(c) <==> (!m.cells.contains_key(c) && spec_born(
            nbr_count(s, c@),
        )))
    &&& m2 == spawned_all(killed_all(m, kills), births)
    &&& m2.pool.len() == m.pool.len() + kills.len() - reused
    &&& m2.next == m.next + births.len() - reused
}

/// Computes and applies one generation to `store`: the kill list is
/// applied first, then the spawn list, reusing pooled handles before
/// allocating fresh ones. The alive set afterwards is exactly the
/// B3/S23 successor of the alive set before; the model transition,
/// dead-pool bookkeeping included, is pinned by `tick_transition`
/// over the generation's kill and spawn lists.
pub fn calculate_next_generation(store: &mut CellStore)
    requires
        old(store).wf(),
        all_inside(old(store).alive()),
        old(store).model().headroom() >= 8 * old(store).alive().dom().len(),
    ensures
        final (store).wf(),
        final (store).alive_set() =~= next_generation(old(store).alive_set()),
        exists|kills: Seq<CellPosition>, births: Seq<CellPosition>|
            #[trigger] tick_transition(old(store).model(), final (store).model(), kills, births),
{
    let ghost s = store.alive_set();
    let ghost m0 = store.alive();
    let (kills, births) = calculate_generation_changes(store);
    proof {
        assert forall|j: int| 0 <= j < kills@.len() implies old(store).alive().contains_key(
            #[trigger] kills@[j],
        ) by {
            assert(kills@.contains(kills@[j]));
        };
    }
    store.kill(&kills);
    proof {
        assert forall|j: int| 0 <= j < births@.len() implies !store.alive().contains_key(
            #[trigger] births@[j],
        ) by {
            assert(births@.contains(births@[j]));
        };
    }
    store.spawn(&births);
    proof {
        assert forall|p: (int, int)|
            #![trigger next_generation(s).contains(p)]
            #![trigger alive_of(store.alive()).contains(p)]
            alive_of(store.alive()).contains(p) == next_generation(s).contains(p) by {
            if in_coord_range(p) {
                let c = pos_of(p);
                assert(c@ == p);
                if m0.contains_key(c) {
                    assert(s.contains(p));
                    assert(kills@.contains(c) <==> !spec_survives(nbr_count(s, p)));
                    assert(!births@.contains(c));
                } else {
                    assert(!s.contains(p)) by {
                        if s.contains(p) {
                            assert(m0.contains_key(pos_of(p)));
                        }
                    };
                    assert(births@.contains(c) <==> spec_born(nbr_count(s, p)));
                    assert(!kills@.contains(c));
                }
            } else {
                assert(!s.contains(p)) by {
                    if s.contains(p) {
                        assert(in_coord_range(p));
                    }
                };
                assert(nbr_count(s, p) == 0) by {
                    if nbr_count(s, p) != 0 {
                        lemma_positive_count_has_neighbor(s, p);
                        let a = choose|a: (int, int)| s.contains(a) && adjacent(a, p);
                        assert(m0.contains_key(pos_of(a)));
                        assert(strictly_inside(pos_of(a)));
                        assert(in_coord_range(p));
                    }
                };
            }
        };
        assert(alive_of(store.alive()) =~= next_generation(s));
        let mdl0 = old(store).model();
        let mdl1 = killed_all(mdl0, kills@);
        lemma_killed_all_shape(mdl0, kills@);
        lemma_spawned_all_shape(mdl1, births@);
        assert(tick_transition(mdl0, store.model(), kills@, births@));
    }
}

/// Checks that every alive coordinate lies strictly inside the
/// representable range, so that a generation step can be taken.
pub fn all_cells_inside(store: &CellStore) -> (r: bool)
    ensures
        r == all_inside(store.alive()),
{
    let entries = store.alive_entries();
    let n = entries.len();
    let mut i: usize = 0;
    while i < n
        invariant
            i <= n,
            n == entries@.len(),
            forall|j: int|
                0 <= j < n ==> #[trigger] store.alive().contains_key(entries@[j].0),
            forall|k: CellPosition|
                #[trigger] store.alive().contains_key(k) ==> exists|j: int|
                    0 <= j < n && entries@[j].0 == k,
            forall|j: int| 0 <= j < i ==> strictly_inside(#[trigger] entries@[j].0),
        decreases n - i,
    {
        let c = entries[i].0;
        if !(c.x > isize::MIN && c.x < isize::MAX && c.y > isize::MIN && c.y < isize::MAX) {
            proof {
                assert(store.alive().contains_key(c) && !strictly_inside(c));
            }
            return false;
        }
        i = i + 1;
    }
    proof {
        assert forall|c: CellPosition| #[trigger]
            store.alive().contains_key(c) implies strictly_inside(c) by {
            let j = choose|j: int| 0 <= j < n && #[trigger] entries@[j].0 == c;
        };
    }
    true
}

/// Checks that enough handles can still be allocated for one
/// generation step over the current alive set.
pub fn has_tick_headroom(store: &CellStore) -> (r: bool)
    ensures
        r == (store.model().headroom() >= 8 * store.alive().dom().len()),
{
    let pool = store.pool_len();
    let alive = store.alive_count();
    let head: u128 = pool as u128 + (u64::MAX - store.next_handle) as u128;
    head >= 8 * (alive as u128)
}

/// Default time between generations, in microseconds: one second.
pub const DEFAULT_PERIOD_MICROS: u64 = 1000000;

/// Configuration parameters for the Game of Life simulation.
///
/// Controls whether the simulation runs automatically and at what
/// speed, and carries the one-shot single-step request used while
/// paused.
#[derive(Clone, Copy, PartialEq, Eq, Debug, Structural)]
pub struct CellParams {
    /// Whether the simulation is currently running automatically
    pub running: bool,
    /// Time between generation updates, in microseconds
    pub period_micros: u64,
    /// Flag to trigger a single step calculation while paused
    pub calculate_next_gen: bool,
}

impl Default for CellParams {
    /// Running, one generation per second, no pending single step.
    fn default() -> (r: CellParams)
        ensures
            r.running == true,
            r.period_micros == DEFAULT_PERIOD_MICROS,
            r.calculate_next_gen == false,
    {
        CellParams { running: true, period_micros: DEFAULT_PERIOD_MICROS, calculate_next_gen: false }
    }
}

/// Repeating timer that controls when the next generation is
/// computed, measured in microseconds of elapsed wall-clock time.
#[derive(Clone, Copy, PartialEq, Eq, Debug, Structural)]
pub struct NewGenTimer {
    /// The configured interval.
    pub duration_micros: u64,
    /// Time accumulated since the interval last elapsed.
    pub elapsed_micros: u64,
}

/// `a + b`, saturating at the `u64` bound.
pub open spec fn sat_add_u64(a: u64, b: u64) -> u64 {
    if a + b > u64::MAX {
        u64::MAX
    } else {
        (a + b) as u64
    }
}

/// Whether advancing the timer by `delta` microseconds makes it fire.
/// A zero-duration timer fires on every advance.
pub open spec fn timer_fires(t: NewGenTimer, delta: u64) -> bool {
    sat_add_u64(t.elapsed_micros, delta) >= t.duration_micros
}

/// The timer after an advance of `delta` microseconds: elapsed time
/// accumulates until the interval is reached, then wraps, keeping the
/// remainder beyond the interval boundary.
pub open spec fn ticked(t: NewGenTimer, delta: u64) -> NewGenTimer {
    let e = sat_add_u64(t.elapsed_micros, delta);
    if e >= t.duration_micros {
        NewGenTimer {
            duration_micros: t.duration_micros,
            elapsed_micros: if t.duration_micros == 0 {
                0u64
            } else {
                (e % t.duration_micros) as u64
            },
        }
    } else {
        NewGenTimer { duration_micros: t.duration_micros, elapsed_micros: e }
    }
}

impl NewGenTimer {
    /// A fresh repeating timer with the given interval.
    pub fn new(duration_micros: u64) -> (t: NewGenTimer)
        ensures
            t.duration_micros == duration_micros,
            t.elapsed_micros == 0,
    {
        NewGenTimer { duration_micros, elapsed_micros: 0 }
    }

    /// Advances the timer by `delta_micros` and reports whether it
    /// fired.
    pub fn tick(&mut self, delta_micros: u64) -> (fired: bool)
        ensures
            fired == timer_fires(*old(self), delta_micros),
            *final (self) == ticked(*old(self), delta_micros),
    {
        let e = self.elapsed_micros.saturating_add(delta_micros);
        if e >= self.duration_micros {
            self.elapsed_micros = if self.duration_micros == 0 {
                0
            } else {
                e % self.duration_micros
            };
            true
        } else {
            self.elapsed_micros = e;
            false
        }
    }

    /// Restarts the timer's elapsed progress.
    pub fn reset(&mut self)
        ensures
            final (self).duration_micros == old(self).duration_micros,
            final (self).elapsed_micros == 0,
    {
        self.elapsed_micros = 0;
    }
}

/// Listens for changes to the simulation parameters: when the
/// configured period differs from the timer's interval, the timer
/// takes the new interval and its elapsed progress restarts;
/// otherwise the timer is left alone.
pub fn cell_params_listener(my_res: &CellParams, timer: &mut NewGenTimer)
    ensures
        *final (timer) == if my_res.period_micros != old(timer).duration_micros {
            NewGenTimer { duration_micros: my_res.period_micros, elapsed_micros: 0 }
        } else {
            *old(timer)
        },
{
    if my_res.period_micros != timer.duration_micros {
        timer.duration_micros = my_res.period_micros;
        timer.reset();
    }
}

/// Whether one invocation of the scheduler computes a generation:
/// while running, when the timer fires; while paused, when a single
/// step was requested.
pub open spec fn gate_fires(params: CellParams, timer: NewGenTimer, delta: u64) -> bool {
    if params.running {
        timer_fires(timer, delta)
    } else {
        params.calculate_next_gen
    }
}

/// One invocation of the generation scheduler.
///
/// In running mode the timer advances by the elapsed wall-clock time
/// and exactly one generation is computed when it fires. In paused
/// mode a generation is computed only when the single-step flag is
/// set, and the flag is cleared at once: one request yields exactly
/// one generation.
pub fn cell_system(
    store: &mut CellStore,
    cell_params: &mut CellParams,
    timer: &mut NewGenTimer,
    delta_micros: u64,
)
    requires
        old(store).wf(),
        all_inside(old(store).alive()),
        old(store).model().headroom() >= 8 * old(store).alive().dom().len(),
    ensures
        final (store).wf(),
        final (cell_params).running == old(cell_params).running,
        final (cell_params).period_micros == old(cell_params).period_micros,
        final (cell_params).calculate_next_gen == (old(cell_params).running && old(
            cell_params,
        ).calculate_next_gen),
        *final (timer) == if old(cell_params).running {
            ticked(*old(timer), delta_micros)
        } else {
            *old(timer)
        },
        if gate_fires(*old(cell_params), *old(timer), delta_micros) {
            final (store).alive_set() =~= next_generation(old(store).alive_set())
                && exists|kills: Seq<CellPosition>, births: Seq<CellPosition>|
                #[trigger] tick_transition(
                    old(store).model(),
                    final (store).model(),
                    kills,
                    births,
                )
        } else {
            *final (store) == *old(store)
        },
{
    if cell_params.running {
        let fired = timer.tick(delta_micros);
        if !fired {
            return ;
        }
    } else if !cell_params.calculate_next_gen {
        return ;
    } else {
        cell_params.calculate_next_gen = false;
    }
    calculate_next_generation(store);
}

/// The bundled startup pattern: five living cells around the origin.
pub open spec fn initial_pattern() -> Seq<CellPosition> {
    seq![
        CellPosition { x: 0, y: 0 },
        CellPosition { x: -1 as isize, y: 0 },
        CellPosition { x: 0, y: -1 as isize },
        CellPosition { x: 0, y: 1 },
        CellPosition { x: 1, y: 1 },
    ]
}

/// Sets up the initial pattern of living cells to start the
/// simulation.
pub fn setup_cells(store: &mut CellStore)
    requires
        old(store).wf(),
        old(store).model().headroom() >= 5,
        forall|j: int|
            0 <= j < initial_pattern().len() ==> !old(store).alive().contains_key(
                #[trigger] initial_pattern()[j],
            ),
    ensures
        final (store).wf(),
        forall|c: CellPosition|
            #[trigger] final (store).alive().contains_key(c) <==> (old(
                store,
            ).alive().contains_key(c) || initial_pattern().contains(c)),
{
    let mut coords: Vec<CellPosition> = Vec::new();
    coords.push(CellPosition { x: 0, y: 0 });
    coords.push(CellPosition { x: -1, y: 0 });
    coords.push(CellPosition { x: 0, y: -1 });
    coords.push(CellPosition { x: 0, y: 1 });
    coords.push(CellPosition { x: 1, y: 1 });
    proof {
        assert(coords@ =~= initial_pattern());
        assert(coords@.no_duplicates());
    }
    store.spawn(&coords);
}

} // verus!
