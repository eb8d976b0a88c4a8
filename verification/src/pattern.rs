//! Decoder for the run-length-encoded (RLE) cellular-automaton pattern
//! format.
//!
//! The decoder is a single left-to-right byte scan with an internal
//! cursor `(x, y)` and an accumulated run count. Digits accumulate the
//! count, `b` and `.` skip dead cells, `o` emits living cells, `$` ends
//! a row, `!` stops the scan, and every other byte is ignored. The
//! decoder is total: it never rejects its input. Cursor and count
//! arithmetic saturates at the `i32` bounds, so run lengths beyond
//! those bounds degrade softly instead of failing.

use crate::cellule::{CellPosition, CellStore, StoreModel};
use vstd::prelude::*;
use vstd::string::StringSliceAdditionalSpecFns;

verus! {

/// ASCII `0`.
pub const DIGIT_ZERO: u8 = 48;

/// ASCII `9`.
pub const DIGIT_NINE: u8 = 57;

/// ASCII `b`: a run of dead cells.
pub const TAG_DEAD: u8 = 98;

/// ASCII `.`: also a run of dead cells.
pub const TAG_DOT: u8 = 46;

/// ASCII `o`: a run of living cells.
pub const TAG_ALIVE: u8 = 111;

/// ASCII `$`: end of row.
pub const TAG_ROW_END: u8 = 36;

/// ASCII `!`: end of pattern.
pub const TAG_STOP: u8 = 33;

/// `v` clamped to the `i32` range.
pub open spec fn sat32(v: int) -> int {
    if v > i32::MAX {
        i32::MAX as int
    } else if v < i32::MIN {
        i32::MIN as int
    } else {
        v
    }
}

/// An accumulated run count of 0 means "no count given", which the
/// format reads as a run of 1.
pub open spec fn run_len(num: int) -> int {
    if num < 1 {
        1int
    } else {
        num
    }
}

/// The `n` cells of one horizontal run starting at `(x, y)`.
pub open spec fn emit_row(x: int, y: int, n: int) -> Seq<(int, int)> {
    Seq::new(n as nat, |i: int| (sat32(x + i), y))
}

/// The cells decoded from `b` when the scan starts with cursor
/// `(x, y)` and accumulated run count `num`.
pub open spec fn decode_from(b: Seq<u8>, x: int, y: int, num: int) -> Seq<(int, int)>
    decreases b.len(),
{
    if b.len() == 0 {
        Seq::empty()
    } else {
        let c = b[0];
        let rest = b.drop_first();
        if DIGIT_ZERO <= c <= DIGIT_NINE {
            decode_from(rest, x, y, sat32(num * 10 + (c - DIGIT_ZERO)))
        } else if c == TAG_DEAD || c == TAG_DOT {
            decode_from(rest, sat32(x + run_len(num)), y, 0)
        } else if c == TAG_ALIVE {
            emit_row(x, y, run_len(num)) + decode_from(rest, sat32(x + run_len(num)), y, 0)
        } else if c == TAG_ROW_END {
            decode_from(rest, 0, sat32(y + run_len(num)), 0)
        } else if c == TAG_STOP {
            Seq::empty()
        } else {
            decode_from(rest, x, y, num)
        }
    }
}

/// The cells decoded from the bytes `b`, scanned from the origin.
pub open spec fn decode_rle(b: Seq<u8>) -> Seq<(int, int)> {
    decode_from(b, 0, 0, 0)
}

/// The mathematical values of a sequence of coordinate pairs.
pub open spec fn pair_views(s: Seq<(i32, i32)>) -> Seq<(int, int)> {
    s.map_values(|p: (i32, i32)| (p.0 as int, p.1 as int))
}

/// Addition on `i32` that saturates at the type bounds.
fn sat_add_i32(a: i32, b: i32) -> (r: i32)
    ensures
        r as int == sat32(a as int + b as int),
{
    match a.checked_add(b) {
        Some(v) => v,
        None => {
            if b >= 0 {
                i32::MAX
            } else {
                i32::MIN
            }
        },
    }
}

/// One more digit folded into the accumulated run count, saturating
/// at the `i32` bound.
fn accumulate_digit(num: i32, c: u8) -> (r: i32)
    requires
        DIGIT_ZERO <= c <= DIGIT_NINE,
        num >= 0,
    ensures
        r as int == sat32(num as int * 10 + (c - DIGIT_ZERO)),
        r >= 0,
{
    let d = (c - DIGIT_ZERO) as i32;
    match num.checked_mul(10) {
        Some(m) => match m.checked_add(d) {
            Some(v) => v,
            None => i32::MAX,
        },
        None => i32::MAX,
    }
}

/// The values of one pushed pair extend the values of the pairs so far.
proof fn lemma_pair_views_push(s: Seq<(i32, i32)>, e: (i32, i32))
    ensures
        pair_views(s.push(e)) =~= pair_views(s).push((e.0 as int, e.1 as int)),
{
}

/// Decodes RLE pattern text into the list of living-cell coordinates,
/// in emission order: row-major, left to right, top to bottom.
pub fn parse_rle(rle: &str) -> (cells: Vec<(i32, i32)>)
    ensures
        pair_views(cells@) == decode_rle(rle.spec_bytes()),
{
    let bytes = rle.as_bytes();
    let n = bytes.len();
    let mut cells: Vec<(i32, i32)> = Vec::new();
    let mut x: i32 = 0;
    let mut y: i32 = 0;
    let mut num: i32 = 0;
    let mut i: usize = 0;
    proof {
        assert(bytes@.skip(0) =~= bytes@);
        assert(pair_views(cells@) + decode_rle(rle.spec_bytes()) =~= decode_rle(rle.spec_bytes()));
    }
    while i < n
        invariant
            i <= n,
            n == bytes@.len(),
            bytes@ == rle.spec_bytes(),
            num >= 0,
            pair_views(cells@) + decode_from(bytes@.skip(i as int), x as int, y as int, num as int)
                == decode_rle(rle.spec_bytes()),
        decreases n - i,
    {
        let c = bytes[i];
        proof {
            assert(bytes@.skip(i as int)[0] == bytes@[i as int]);
            assert(bytes@.skip(i as int).drop_first() =~= bytes@.skip(i as int + 1));
        }
        if DIGIT_ZERO <= c && c <= DIGIT_NINE {
            num = accumulate_digit(num, c);
        } else if c == TAG_DEAD || c == TAG_DOT {
            x = sat_add_i32(x, if num < 1 { 1 } else { num });
            num = 0;
        } else if c == TAG_ALIVE {
            let count = if num < 1 { 1 } else { num };
            let ghost prefix = cells@;
            let mut k: i32 = 0;
            while k < count
                invariant
                    0 <= k <= count,
                    cells@.len() == prefix.len() + k,
                    pair_views(cells@) == pair_views(prefix) + emit_row(
                        x as int,
                        y as int,
                        count as int,
                    ).take(k as int),
                decreases count - k,
            {
                let cx = sat_add_i32(x, k);
                let ghost before = cells@;
                cells.push((cx, y));
                proof {
                    lemma_pair_views_push(before, (cx, y));
                    assert(emit_row(x as int, y as int, count as int)[k as int] == (
                        cx as int,
                        y as int,
                    ));
                    assert(pair_views(cells@) =~= pair_views(prefix) + emit_row(
                        x as int,
                        y as int,
                        count as int,
                    ).take(k as int + 1));
                }
                k = k + 1;
            }
            proof {
                assert(emit_row(x as int, y as int, count as int).take(count as int) =~= emit_row(
                    x as int,
                    y as int,
                    count as int,
                ));
                assert(pair_views(cells@) + decode_from(
                    bytes@.skip(i as int + 1),
                    sat32(x as int + count as int),
                    y as int,
                    0,
                ) =~= decode_rle(rle.spec_bytes()));
            }
            x = sat_add_i32(x, count);
            num = 0;
        } else if c == TAG_STOP {
            proof {
                assert(pair_views(cells@) + Seq::<(int, int)>::empty() =~= pair_views(cells@));
            }
            return cells;
        } else if c == TAG_ROW_END {
            y = sat_add_i32(y, if num < 1 { 1 } else { num });
            x = 0;
            num = 0;
        }
        i = i + 1;
    }
    proof {
        assert(bytes@.skip(n as int) =~= Seq::empty());
        assert(pair_views(cells@) + Seq::<(int, int)>::empty() =~= pair_views(cells@));
    }
    cells
}

/// Decoded cells come only from `o` tags: text without an `o` byte
/// decodes to the empty cell list, whatever the cursor state is.
pub proof fn lemma_decode_without_o_is_empty(b: Seq<u8>, x: int, y: int, num: int)
    requires
        forall|i: int| 0 <= i < b.len() ==> b[i] != TAG_ALIVE,
    ensures
        decode_from(b, x, y, num) =~= Seq::empty(),
    decreases b.len(),
{
    if b.len() > 0 {
        let c = b[0];
        let rest = b.drop_first();
        assert(forall|i: int| 0 <= i < rest.len() ==> rest[i] == b[i + 1]);
        if c != TAG_STOP {
            if DIGIT_ZERO <= c <= DIGIT_NINE {
                lemma_decode_without_o_is_empty(rest, x, y, sat32(num * 10 + (c - DIGIT_ZERO)));
            } else if c == TAG_DEAD || c == TAG_DOT {
                lemma_decode_without_o_is_empty(rest, sat32(x + run_len(num)), y, 0);
            } else if c == TAG_ROW_END {
                lemma_decode_without_o_is_empty(rest, 0, sat32(y + run_len(num)), 0);
            } else {
                lemma_decode_without_o_is_empty(rest, x, y, num);
            }
        }
    }
}

/// Accessors over the decoded form of bundled or user-supplied
/// pattern text.
pub struct Patterns;

impl Patterns {
    /// Parse RLE from string content (for dynamic loading).
    pub fn from_rle_string(rle_content: &str) -> (cells: Vec<(i32, i32)>)
        ensures
            pair_views(cells@) == decode_rle(rle_content.spec_bytes()),
    {
        parse_rle(rle_content)
    }
}

/// `v` clamped to the `isize` range.
pub open spec fn sat_isize(v: int) -> int {
    if v > isize::MAX {
        isize::MAX as int
    } else if v < isize::MIN {
        isize::MIN as int
    } else {
        v
    }
}

/// The absolute cell position of one pattern offset placed at
/// `position`, the coordinates saturating at the `isize` bounds.
pub open spec fn placed_at(position: CellPosition, off: (i32, i32)) -> CellPosition {
    CellPosition {
        x: sat_isize(position.x + off.0) as isize,
        y: sat_isize(position.y + off.1) as isize,
    }
}

/// The store state after each offset of `offs`, placed at `position`,
/// is spawned in turn, first to last; an offset that lands on an
/// already-living cell leaves the store as it is.
pub open spec fn placed_all(m: StoreModel, position: CellPosition, offs: Seq<(i32, i32)>) -> StoreModel
    decreases offs.len(),
{
    if offs.len() == 0 {
        m
    } else {
        let c = placed_at(position, offs[0]);
        let m1 = if m.cells.contains_key(c) {
            m
        } else {
            m.spawned(c)
        };
        placed_all(m1, position, offs.drop_first())
    }
}

/// Placing a batch and then one more offset is placing the extended
/// batch.
proof fn lemma_placed_all_snoc(
    m: StoreModel,
    position: CellPosition,
    offs: Seq<(i32, i32)>,
    o: (i32, i32),
)
    ensures
        placed_all(m, position, offs.push(o)) == ({
            let mend = placed_all(m, position, offs);
            let c = placed_at(position, o);
            if mend.cells.contains_key(c) {
                mend
            } else {
                mend.spawned(c)
            }
        }),
    decreases offs.len(),
{
    if offs.len() == 0 {
        assert(offs.push(o)[0] == o);
        assert(offs.push(o).drop_first() =~= offs);
        let c = placed_at(position, o);
        let m1 = if m.cells.contains_key(c) {
            m
        } else {
            m.spawned(c)
        };
        assert(placed_all(m, position, offs.push(o)) == placed_all(
            m1,
            position,
            offs.push(o).drop_first(),
        ));
        assert(placed_all(m1, position, offs.push(o).drop_first()) == placed_all(
            m1,
            position,
            offs,
        ));
        assert(placed_all(m1, position, offs) == m1);
        assert(placed_all(m, position, offs) == m);
    } else {
        assert(offs.push(o)[0] == offs[0]);
        assert(offs.push(o).drop_first() =~= offs.drop_first().push(o));
        let c0 = placed_at(position, offs[0]);
        let m1 = if m.cells.contains_key(c0) {
            m
        } else {
            m.spawned(c0)
        };
        lemma_placed_all_snoc(m1, position, offs.drop_first(), o);
        assert(placed_all(m, position, offs.push(o)) == placed_all(
            m1,
            position,
            offs.drop_first().push(o),
        ));
        assert(placed_all(m, position, offs) == placed_all(m1, position, offs.drop_first()));
    }
}

/// Addition on `isize` that saturates at the type bounds.
fn sat_add_isize(a: isize, b: isize) -> (r: isize)
    ensures
        r as int == sat_isize(a as int + b as int),
{
    match a.checked_add(b) {
        Some(v) => v,
        None => {
            if b >= 0 {
                isize::MAX
            } else {
                isize::MIN
            }
        },
    }
}

/// Places a decoded pattern into the store: every offset, translated
/// to the chosen anchor position, becomes a living cell; offsets that
/// land on an already-living cell are left as they are.
pub fn place_pattern(store: &mut CellStore, position: CellPosition, cells: &[(i32, i32)])
    requires
        old(store).wf(),
        old(store).model().headroom() >= cells@.len(),
    ensures
        final (store).wf(),
        final (store).model() == placed_all(old(store).model(), position, cells@),
        forall|c: CellPosition|
            #[trigger] final (store).alive().contains_key(c) <==> (old(
                store,
            ).alive().contains_key(c) || exists|j: int|
                0 <= j < cells@.len() && placed_at(position, cells@[j]) == c),
{
    let n = cells.len();
    let mut i: usize = 0;
    proof {
        assert(cells@.take(0) =~= Seq::<(i32, i32)>::empty());
    }
    while i < n
        invariant
            i <= n,
            n == cells@.len(),
            store.wf(),
            store.model().headroom() >= n - i,
            store.model() == placed_all(old(store).model(), position, cells@.take(i as int)),
            forall|c: CellPosition|
                #[trigger] store.alive().contains_key(c) <==> (old(
                    store,
                ).alive().contains_key(c) || exists|j: int|
                    0 <= j < i && placed_at(position, cells@[j]) == c),
        decreases n - i,
    {
        let off = cells[i];
        let p = CellPosition {
            x: sat_add_isize(position.x, off.0 as isize),
            y: sat_add_isize(position.y, off.1 as isize),
        };
        let ghost before = *store;
        proof {
            assert(p == placed_at(position, cells@[i as int]));
            lemma_placed_all_snoc(old(store).model(), position, cells@.take(i as int), off);
            assert(cells@.take(i as int).push(off) =~= cells@.take(i as int + 1));
        }
        if !store.is_alive(p) {
            store.spawn_cell(p);
        }
        proof {
            assert forall|c: CellPosition|
                #[trigger] store.alive().contains_key(c) <==> (old(
                    store,
                ).alive().contains_key(c) || exists|j: int|
                    0 <= j < i + 1 && placed_at(position, cells@[j]) == c) by {
                if store.alive().contains_key(c) {
                    if before.alive().contains_key(c) {
                        if !old(store).alive().contains_key(c) {
                            let j = choose|j: int|
                                0 <= j < i && #[trigger] placed_at(position, cells@[j]) == c;
                        }
                    } else {
                        assert(placed_at(position, cells@[i as int]) == c);
                    }
                } else {
                    assert(!before.alive().contains_key(c));
                    if exists|j: int|
                        0 <= j < i + 1 && #[trigger] placed_at(position, cells@[j]) == c {
                        let j = choose|j: int|
                            0 <= j < i + 1 && #[trigger] placed_at(position, cells@[j]) == c;
                        if j < i {
                            assert(before.alive().contains_key(c));
                        } else {
                            assert(c == p);
                            assert(store.alive().contains_key(c));
                        }
                    }
                }
            };
        }
        i = i + 1;
    }
    proof {
        assert(cells@.take(n as int) =~= cells@);
    }
}

/// State of the interactive pattern-placement workflow: whether a
/// pattern is being placed and which named pattern it is.
pub struct PlacementMode {
    /// Whether a pattern placement is in progress.
    pub active: bool,
    /// The name of the pattern being placed, if any.
    pub pattern_name: Option<String>,
}

impl Default for PlacementMode {
    /// No placement in progress.
    fn default() -> (r: PlacementMode)
        ensures
            r.active == false,
            r.pattern_name is None,
    {
        PlacementMode { active: false, pattern_name: None }
    }
}

/// State of the dialog that loads user-pasted RLE pattern text.
pub struct RleLoader {
    /// The pasted pattern text.
    pub rle_content: String,
    /// Whether the dialog is shown.
    pub show_input: bool,
    /// The message shown when the pasted text was not accepted.
    pub error_message: Option<String>,
}

impl Default for RleLoader {
    /// A hidden dialog with no content and no error.
    fn default() -> (r: RleLoader)
        ensures
            r.rle_content@ == Seq::<char>::empty(),
            r.show_input == false,
            r.error_message is None,
    {
        RleLoader { rle_content: String::new(), show_input: false, error_message: None }
    }
}

} // verus!
