//! A falling-piece tower simulator inside a fixed-width shaft.
//!
//! Five fixed piece shapes fall in rotation, pushed left or right by a
//! cyclic command stream, until each rests on the floor or on settled
//! material. After each piece settles, a compact fingerprint of the
//! skyline, the command phase and the piece phase is recorded; a
//! repeated fingerprint is taken as a cycle and used to extrapolate the
//! tower height for piece counts far too large to simulate directly.
//! The fingerprint is a bounded-window approximation of true state
//! equality, so cycle detection is a heuristic shortcut, not a proof of
//! periodicity; `PROFILE_WINDOW` tunes the lookback depth.

use vstd::prelude::*;

use crate::numfmt::dec_digits;
use crate::numfmt::u64_string;
use vstd::string::StringSliceAdditionalSpecFns;

verus! {

/// The width of the shaft, in columns.
pub const SHAFT_WIDTH: u8 = 7;

/// How many rows below the highest row the skyline fingerprint records.
pub const PROFILE_WINDOW: u8 = 30;

/// A horizontal push taken from the command stream.
#[derive(Debug, PartialEq, Eq, Structural, Clone, Copy)]
pub enum Direction {
    Left,
    Right,
}

/// Whether bit `c` of the row mask `m` is set, i.e. column `c` is occupied.
pub open spec fn mask_bit(m: u8, c: u8) -> bool {
    ((m >> c) & 1) == 1
}

/// Setting one bit keeps a row mask inside the shaft width and
/// changes exactly that column.
proof fn lemma_mask_set(m: u8, c: u8)
    requires
        c < 7,
        m < 128,
    ensures
        (m | (1u8 << c)) < 128,
        (m | (1u8 << c)) != 0,
        forall|k: u8| k < 8 ==> (#[trigger] mask_bit(m | (1u8 << c), k) == (mask_bit(m, k) || k == c)),
{
    assert((m | (1u8 << c)) < 128 && (m | (1u8 << c)) != 0 && forall|k: u8|
        k < 8 ==> ((((m | (1u8 << c)) >> k) & 1 == 1) == (((m >> k) & 1 == 1) || k == c)))
        by (bit_vector)
        requires
            c < 7 && m < 128,
    ;
}

/// Occupancy of the shaft model `rows` at column `c` and row `r`, with
/// the walls and the floor counting as occupied: any column outside
/// `[0, SHAFT_WIDTH)` and any row below the floor reads occupied.
pub open spec fn occ(rows: Seq<u8>, c: int, r: int) -> bool {
    if c < 0 || c >= 7 || r < 0 {
        true
    } else if r >= rows.len() {
        false
    } else {
        mask_bit(rows[r], c as u8)
    }
}

/// All row masks stay within the shaft width, and the topmost
/// represented row holds at least one settled cell.
pub open spec fn rows_wf(rows: Seq<u8>) -> bool {
    &&& forall|i: int| 0 <= i < rows.len() ==> #[trigger] rows[i] < 128
    &&& rows.len() > 0 ==> rows.last() != 0
}

/// The occupancy record of the shaft: a mask of settled columns for
/// each row, indexed from the floor upwards. Only rows up to the
/// highest settled cell are represented.
pub struct Shaft {
    rows: Vec<u8>,
}

/// `rows` extended with empty rows so that row `r` exists, with column
/// `c` marked occupied.
pub open spec fn set_cell(rows: Seq<u8>, c: u8, r: int) -> Seq<u8> {
    if r < 0 {
        rows
    } else {
        let ext = if r < rows.len() {
            rows
        } else {
            rows + Seq::new((r + 1 - rows.len()) as nat, |_i: int| 0u8)
        };
        ext.update(r, ext[r] | (1u8 << c))
    }
}

/// The first `k` cells of a piece at position `(x, y)` marked occupied.
pub open spec fn settle_cells(rows: Seq<u8>, cells: Seq<(u8, u8)>, x: int, y: int, k: int) -> Seq<
    u8,
>
    decreases k,
{
    if k <= 0 {
        rows
    } else {
        let cell = cells[k - 1];
        set_cell(settle_cells(rows, cells, x, y, k - 1), (x + cell.0) as u8, y + cell.1)
    }
}

/// Whether `(c, r)` is one of the first `k` cells of a piece at `(x, y)`.
pub open spec fn covers(cells: Seq<(u8, u8)>, x: int, y: int, k: int, c: int, r: int) -> bool {
    exists|i: int|
        0 <= i < k && x + #[trigger] cells[i].0 == c && y + cells[i].1 == r
}

/// Marking cells only adds occupancy: afterwards a position is occupied
/// exactly when it was occupied before or one of the cells covers it.
proof fn lemma_settle_cells_occ(rows: Seq<u8>, cells: Seq<(u8, u8)>, x: int, y: int, k: int)
    requires
        0 <= k <= cells.len(),
        forall|i: int| 0 <= i < rows.len() ==> #[trigger] rows[i] < 128,
        forall|i: int|
            0 <= i < cells.len() ==> 0 <= x + #[trigger] cells[i].0 < 7 && 0 <= y + cells[i].1,
    ensures
        forall|i: int|
            0 <= i < settle_cells(rows, cells, x, y, k).len() ==> #[trigger] settle_cells(
                rows,
                cells,
                x,
                y,
                k,
            )[i] < 128,
        settle_cells(rows, cells, x, y, k).len() >= rows.len(),
        forall|c: int, r: int|
            #[trigger] occ(settle_cells(rows, cells, x, y, k), c, r) == (occ(rows, c, r) || covers(
                cells,
                x,
                y,
                k,
                c,
                r,
            )),
    decreases k,
{
    if k > 0 {
        lemma_settle_cells_occ(rows, cells, x, y, k - 1);
        let prev = settle_cells(rows, cells, x, y, k - 1);
        let cur = settle_cells(rows, cells, x, y, k);
        let cell = cells[k - 1];
        let cc = (x + cell.0) as u8;
        let rr = y + cell.1;
        assert(cc as int == x + cell.0);
        let ext = if rr < prev.len() {
            prev
        } else {
            prev + Seq::new((rr + 1 - prev.len()) as nat, |_i: int| 0u8)
        };
        assert(forall|i: int| 0 <= i < ext.len() ==> #[trigger] ext[i] < 128);
        assert(cur =~= ext.update(rr, ext[rr] | (1u8 << cc)));
        lemma_mask_set(ext[rr], cc);
        assert forall|c: int, r: int| occ(cur, c, r) == (occ(rows, c, r) || covers(
            cells,
            x,
            y,
            k,
            c,
            r,
        )) by {
            assert(occ(prev, c, r) == (occ(rows, c, r) || covers(cells, x, y, k - 1, c, r)));
            if 0 <= c < 7 && r >= 0 {
                if c == cc && r == rr {
                    assert(cur[r] == (ext[rr] | (1u8 << cc)));
                    assert(c as u8 == cc);
                    assert(mask_bit(ext[rr] | (1u8 << cc), cc));
                    assert(mask_bit(cur[r], c as u8));
                    assert(occ(cur, c, r));
                    assert(covers(cells, x, y, k, c, r)) by {
                        assert(0 <= k - 1 < k && x + cells[k - 1].0 == c && y + cells[k - 1].1
                            == r);
                    }
                } else {
                    // only the marked cell's position changes
                    assert(occ(cur, c, r) == occ(prev, c, r)) by {
                        if r < cur.len() && r >= 0 {
                            let cu = c as u8;
                            if r == rr {
                                assert(cur[r] == (ext[rr] | (1u8 << cc)));
                                assert(mask_bit(cur[r], cu) == mask_bit(ext[rr], cu));
                                if rr < prev.len() {
                                    assert(ext[rr] == prev[rr]);
                                } else {
                                    assert(ext[rr] == 0u8);
                                    assert(((0u8 >> cu) & 1) != 1) by (bit_vector);
                                }
                            } else if r < prev.len() {
                                assert(cur[r] == prev[r]);
                            } else {
                                assert(cur[r] == 0u8);
                                assert(((0u8 >> cu) & 1) != 1) by (bit_vector);
                            }
                        }
                    }
                    if covers(cells, x, y, k - 1, c, r) {
                        assert(covers(cells, x, y, k, c, r)) by {
                            let i = choose|i: int|
                                0 <= i < k - 1 && x + #[trigger] cells[i].0 == c && y + cells[i].1
                                    == r;
                            assert(0 <= i < k && x + cells[i].0 == c && y + cells[i].1 == r);
                        }
                    }
                    if covers(cells, x, y, k, c, r) {
                        let i = choose|i: int|
                            0 <= i < k && x + #[trigger] cells[i].0 == c && y + cells[i].1 == r;
                        if i == k - 1 {
                            assert(c == cc && r == rr);
                        } else {
                            assert(covers(cells, x, y, k - 1, c, r));
                        }
                    }
                }
            }
        }
    } else {
        assert forall|c: int, r: int| occ(settle_cells(rows, cells, x, y, k), c, r) == (occ(
            rows,
            c,
            r,
        ) || covers(cells, x, y, k, c, r)) by {
            assert(!covers(cells, x, y, k, c, r));
        }
    }
}

impl View for Shaft {
    type V = Seq<u8>;

    closed spec fn view(&self) -> Seq<u8> {
        self.rows@
    }
}

impl Shaft {
    /// An empty shaft: nothing settled, the highest occupied row is
    /// below the floor.
    pub fn new() -> (s: Shaft)
        ensures
            s@ =~= Seq::<u8>::empty(),
            rows_wf(s@),
    {
        Shaft { rows: Vec::new() }
    }

    /// The number of distinct rows holding settled material, which is
    /// one more than the highest occupied row.
    pub fn height(&self) -> (h: u64)
        requires
            self@.len() <= u64::MAX,
        ensures
            h == self@.len(),
    {
        self.rows.len() as u64
    }

    /// The highest row holding a settled cell, or `None` while nothing
    /// has settled (the highest occupied row is then below the floor).
    pub fn highest_row(&self) -> (r: Option<u64>)
        requires
            rows_wf(self@),
            self@.len() <= u64::MAX,
        ensures
            match r {
                None => self@.len() == 0,
                Some(h) => self@.len() == h + 1 && occ(self@, first_col(self@[h as int]) as int, h as int),
            },
    {
        if self.rows.len() == 0 {
            None
        } else {
            let h = self.rows.len() - 1;
            let m = self.rows[h];
            proof {
                lemma_first_col(m);
            }
            let _ = m;
            Some(h as u64)
        }
    }

    /// Occupancy query. Walls and floor count as occupied: any column
    /// outside `[0, SHAFT_WIDTH)` reads occupied, and so does any row
    /// below the floor.
    pub fn is_occupied(&self, col: i64, row: i64) -> (b: bool)
        requires
            self@.len() < usize::MAX,
        ensures
            b == occ(self@, col as int, row as int),
            (col < 0 || col >= SHAFT_WIDTH || row < 0) ==> b,
    {
        if col < 0 || col >= 7 || row < 0 {
            true
        } else if (row as u64) >= (self.rows.len() as u64) {
            false
        } else {
            let m = self.rows[row as usize];
            ((m >> (col as u8)) & 1) == 1
        }
    }

    /// Marks every cell of `cells`, offset by the position `(x, y)`, as
    /// occupied. Settling only adds occupancy and never removes any.
    pub fn settle(&mut self, cells: &Vec<(u8, u8)>, x: u8, y: u64)
        requires
            rows_wf(old(self)@),
            old(self)@.len() + 5 < usize::MAX,
            y + 4 < u64::MAX,
            cells@.len() > 0,
            forall|i: int|
                0 <= i < cells@.len() ==> x + #[trigger] cells@[i].0 < 7 && cells@[i].1 < 4,
            // the piece may not float above the current tower: its rows
            // must start at or below the first empty row
            y <= old(self)@.len(),
        ensures
            final(self)@ =~= settle_cells(
                old(self)@,
                cells@,
                x as int,
                y as int,
                cells@.len() as int,
            ),
            rows_wf(final(self)@),
            forall|c: int, r: int| occ(old(self)@, c, r) ==> occ(final(self)@, c, r),
            final(self)@.len() >= old(self)@.len(),
    {
        proof {
            lemma_settle_cells_occ(
                self@,
                cells@,
                x as int,
                y as int,
                cells@.len() as int,
            );
        }
        let ghost orig = self@;
        let mut k: usize = 0;
        while k < cells.len()
            invariant
                0 <= k <= cells@.len(),
                rows_wf(orig),
                orig.len() + 5 < usize::MAX,
                y + 4 < u64::MAX,
                y <= orig.len(),
                forall|i: int|
                    0 <= i < cells@.len() ==> x + #[trigger] cells@[i].0 < 7 && cells@[i].1 < 4,
                self@ =~= settle_cells(orig, cells@, x as int, y as int, k as int),
                forall|i: int| 0 <= i < self@.len() ==> #[trigger] self@[i] < 128,
                self@.len() <= orig.len() + 4,
                self@.len() >= orig.len(),
            decreases cells@.len() - k,
        {
            let (dx, dy) = cells[k];
            let col = x + dx;
            let row = y + (dy as u64);
            let row_ix = row as usize;
            let ghost prev = self@;
            if self.rows.len() <= row_ix {
                while self.rows.len() <= row_ix
                    invariant
                        row_ix < prev.len() + 5,
                        prev.len() <= self@.len() <= row_ix + 1,
                        self@ =~= prev + Seq::new(
                            (self@.len() - prev.len()) as nat,
                            |_i: int| 0u8,
                        ),
                    decreases row_ix + 1 - self@.len(),
                {
                    self.rows.push(0);
                    proof {
                        assert(self@ =~= prev + Seq::new(
                            (self@.len() - prev.len()) as nat,
                            |_i: int| 0u8,
                        ));
                    }
                }
            }
            proof {
                assert(forall|i: int| 0 <= i < self@.len() ==> #[trigger] self@[i] < 128);
            }
            let m = self.rows[row_ix];
            proof {
                lemma_mask_set(m, col);
            }
            self.rows.set(row_ix, m | (1u8 << col));
            proof {
                assert(self@ =~= set_cell(prev, col, row as int));
                assert(self@ =~= settle_cells(orig, cells@, x as int, y as int, k + 1));
            }
            k = k + 1;
        }
        proof {
            lemma_settle_cells_occ(orig, cells@, x as int, y as int, cells@.len() as int);
            // the topmost row is occupied: either it was the old top, or
            // it is covered by one of the marked cells
            assert(rows_wf(self@)) by {
                if self@.len() > 0 {
                    let top = self@.len() - 1;
                    if top < orig.len() {
                        assert(orig[top] == orig.last() && orig.last() != 0);
                        lemma_first_col(orig[top]);
                        assert(occ(orig, first_col(orig[top]) as int, top));
                        assert(occ(self@, first_col(orig[top]) as int, top));
                        lemma_occ_nonzero(self@, top);
                    } else {
                        lemma_settle_top_occupied(orig, cells@, x as int, y as int, cells@.len() as int);
                        lemma_occ_nonzero(self@, top);
                    }
                }
            }
        }
    }
}

/// The lowest occupied column of a non-empty row mask.
pub open spec fn first_col(m: u8) -> u8
    decreases 8 - 0,
{
    first_col_from(m, 0)
}

pub open spec fn first_col_from(m: u8, c: u8) -> u8
    decreases 8 - c,
{
    if c >= 7 {
        0
    } else if mask_bit(m, c) {
        c
    } else {
        first_col_from(m, (c + 1) as u8)
    }
}

/// A row mask below 128 that is not zero has an occupied column.
proof fn lemma_first_col(m: u8)
    requires
        m < 128,
        m != 0,
    ensures
        first_col(m) < 7,
        mask_bit(m, first_col(m)),
{
    assert(((m >> 0u8) & 1) == 1 || ((m >> 1u8) & 1) == 1 || ((m >> 2u8) & 1) == 1 || ((m
        >> 3u8) & 1) == 1 || ((m >> 4u8) & 1) == 1 || ((m >> 5u8) & 1) == 1 || ((m >> 6u8) & 1)
        == 1) by (bit_vector)
        requires
            m < 128 && m != 0,
    ;
    let w: u8 = if mask_bit(m, 0) {
        0
    } else if mask_bit(m, 1) {
        1
    } else if mask_bit(m, 2) {
        2
    } else if mask_bit(m, 3) {
        3
    } else if mask_bit(m, 4) {
        4
    } else if mask_bit(m, 5) {
        5
    } else {
        6
    };
    lemma_first_col_from(m, 0, w);
}

proof fn lemma_first_col_from(m: u8, c: u8, w: u8)
    requires
        c <= w < 7,
        mask_bit(m, w),
    ensures
        first_col_from(m, c) < 7,
        mask_bit(m, first_col_from(m, c)),
    decreases 8 - c,
{
    if !mask_bit(m, c) {
        lemma_first_col_from(m, (c + 1) as u8, w);
    }
}

/// A row with an occupied column is a non-zero mask.
proof fn lemma_occ_nonzero(rows: Seq<u8>, r: int)
    requires
        0 <= r < rows.len(),
        exists|c: int| 0 <= c < 7 && occ(rows, c, r),
    ensures
        rows[r] != 0,
{
    let c = choose|c: int| 0 <= c < 7 && occ(rows, c, r);
    let m = rows[r];
    let cu = c as u8;
    assert(((m >> cu) & 1) == 1 ==> m != 0) by (bit_vector);
}

/// After settling all cells, the topmost resulting row is occupied
/// whenever it lies above the old top: some cell reaches it.
proof fn lemma_settle_top_occupied(rows: Seq<u8>, cells: Seq<(u8, u8)>, x: int, y: int, k: int)
    requires
        0 <= k <= cells.len(),
        forall|i: int| 0 <= i < rows.len() ==> #[trigger] rows[i] < 128,
        forall|i: int|
            0 <= i < cells.len() ==> 0 <= x + #[trigger] cells[i].0 < 7 && 0 <= y + cells[i].1,
        settle_cells(rows, cells, x, y, k).len() > rows.len(),
    ensures
        exists|c: int|
            0 <= c < 7 && #[trigger] occ(
                settle_cells(rows, cells, x, y, k),
                c,
                settle_cells(rows, cells, x, y, k).len() - 1,
            ),
    decreases k,
{
    let cur = settle_cells(rows, cells, x, y, k);
    if k > 0 {
        let prev = settle_cells(rows, cells, x, y, k - 1);
        let cell = cells[k - 1];
        let cc = (x + cell.0) as u8;
        let rr = y + cell.1;
        lemma_settle_cells_occ(rows, cells, x, y, k - 1);
        lemma_settle_cells_occ(rows, cells, x, y, k);
        assert(cc as int == x + cell.0);
        if rr >= prev.len() {
            // the new top row is the marked cell's row
            assert(cur.len() == rr + 1);
            assert(covers(cells, x, y, k, cc as int, rr)) by {
                assert(0 <= k - 1 < k && x + cells[k - 1].0 == cc as int && y + cells[k - 1].1
                    == rr);
            }
            assert(occ(cur, cc as int, rr));
            assert(0 <= (cc as int) && (cc as int) < 7 && occ(cur, cc as int, cur.len() - 1));
        } else {
            assert(cur.len() == prev.len());
            lemma_settle_top_occupied(rows, cells, x, y, k - 1);
            let c = choose|c: int| 0 <= c < 7 && #[trigger] occ(prev, c, prev.len() - 1);
            assert(occ(rows, c, prev.len() - 1) || covers(cells, x, y, k - 1, c, prev.len() - 1));
            if covers(cells, x, y, k - 1, c, prev.len() - 1) {
                let i = choose|i: int|
                    0 <= i < k - 1 && x + #[trigger] cells[i].0 == c && y + cells[i].1 == prev.len()
                        - 1;
                assert(0 <= i < k && x + cells[i].0 == c && y + cells[i].1 == prev.len() - 1);
                assert(covers(cells, x, y, k, c, prev.len() - 1));
            }
            assert(occ(cur, c, cur.len() - 1));
        }
    }
}


// ---------------------------------------------------------------------
// Piece catalog
// ---------------------------------------------------------------------

/// The cells of catalog piece `k` (for `k` in `0..5`), each as a
/// `(column, row)` offset from the piece's lower-left corner: a
/// horizontal bar, a plus, a mirrored L, a vertical bar and a square.
pub open spec fn piece_cells(k: int) -> Seq<(u8, u8)> {
    if k == 0 {
        seq![(0u8, 0u8), (1u8, 0u8), (2u8, 0u8), (3u8, 0u8)]
    } else if k == 1 {
        seq![(1u8, 2u8), (0u8, 1u8), (1u8, 1u8), (2u8, 1u8), (1u8, 0u8)]
    } else if k == 2 {
        seq![(2u8, 2u8), (2u8, 1u8), (0u8, 0u8), (1u8, 0u8), (2u8, 0u8)]
    } else if k == 3 {
        seq![(0u8, 3u8), (0u8, 2u8), (0u8, 1u8), (0u8, 0u8)]
    } else {
        seq![(0u8, 0u8), (0u8, 1u8), (1u8, 0u8), (1u8, 1u8)]
    }
}

/// The bounding-box width of catalog piece `k`.
pub open spec fn piece_width(k: int) -> u8 {
    if k == 0 {
        4
    } else if k == 1 || k == 2 {
        3
    } else if k == 3 {
        1
    } else {
        2
    }
}

/// The bounding-box height of catalog piece `k`.
pub open spec fn piece_height(k: int) -> u8 {
    if k == 0 {
        1
    } else if k == 1 || k == 2 {
        3
    } else if k == 3 {
        4
    } else {
        2
    }
}

/// What the drop engine needs of a piece's cell set: it is non-empty,
/// fits the entry position, touches the floor row and the left column
/// of its own bounding box.
pub open spec fn piece_ok(cells: Seq<(u8, u8)>) -> bool {
    &&& cells.len() > 0
    &&& forall|i: int| 0 <= i < cells.len() ==> (#[trigger] cells[i]).0 < 4 && cells[i].1 < 4
    &&& exists|i: int| 0 <= i < cells.len() && (#[trigger] cells[i]).0 == 0
    &&& exists|i: int| 0 <= i < cells.len() && (#[trigger] cells[i]).1 == 0
}

/// Every catalog piece satisfies `piece_ok`.
pub proof fn lemma_catalog_ok(k: int)
    ensures
        piece_ok(piece_cells(k)),
{
    let cells = piece_cells(k);
    if k == 1 {
        assert(cells[1].0 == 0 && cells[4].1 == 0);
        assert(exists|i: int| 0 <= i < cells.len() && (#[trigger] cells[i]).0 == 0);
        assert(exists|i: int| 0 <= i < cells.len() && (#[trigger] cells[i]).1 == 0);
    } else if k == 2 {
        assert(cells[2].0 == 0 && cells[2].1 == 0);
        assert(exists|i: int| 0 <= i < cells.len() && (#[trigger] cells[i]).0 == 0);
        assert(exists|i: int| 0 <= i < cells.len() && (#[trigger] cells[i]).1 == 0);
    } else {
        assert(cells[0].0 == 0);
        assert(k == 0 || k == 3 || !(0 <= k < 4) ==> cells[0].0 == 0);
        assert(exists|i: int| 0 <= i < cells.len() && (#[trigger] cells[i]).0 == 0);
        if k == 3 {
            assert(cells[3].1 == 0);
        } else {
            assert(cells[0].1 == 0);
        }
        assert(exists|i: int| 0 <= i < cells.len() && (#[trigger] cells[i]).1 == 0);
    }
}

/// One of the five fixed piece shapes: its cells relative to the
/// lower-left corner of its bounding box, and the box's size.
pub struct Piece {
    pub cells: Vec<(u8, u8)>,
    pub width: u8,
    pub height: u8,
}

/// The piece used for the given sequence number: a pure function of
/// `sequence_number mod 5`, cycling through the fixed catalog.
pub fn piece_for(sequence_number: u64) -> (p: Piece)
    ensures
        p.cells@ == piece_cells((sequence_number % 5) as int),
        p.width == piece_width((sequence_number % 5) as int),
        p.height == piece_height((sequence_number % 5) as int),
{
    let k = sequence_number % 5;
    let mut cells: Vec<(u8, u8)> = Vec::new();
    let width: u8;
    let height: u8;
    if k == 0 {
        cells.push((0, 0));
        cells.push((1, 0));
        cells.push((2, 0));
        cells.push((3, 0));
        width = 4;
        height = 1;
    } else if k == 1 {
        cells.push((1, 2));
        cells.push((0, 1));
        cells.push((1, 1));
        cells.push((2, 1));
        cells.push((1, 0));
        width = 3;
        height = 3;
    } else if k == 2 {
        cells.push((2, 2));
        cells.push((2, 1));
        cells.push((0, 0));
        cells.push((1, 0));
        cells.push((2, 0));
        width = 3;
        height = 3;
    } else if k == 3 {
        cells.push((0, 3));
        cells.push((0, 2));
        cells.push((0, 1));
        cells.push((0, 0));
        width = 1;
        height = 4;
    } else {
        cells.push((0, 0));
        cells.push((0, 1));
        cells.push((1, 0));
        cells.push((1, 1));
        width = 2;
        height = 2;
    }
    proof {
        assert(cells@ =~= piece_cells(k as int));
    }
    Piece { cells, width, height }
}

// ---------------------------------------------------------------------
// Collision & drop engine
// ---------------------------------------------------------------------

/// Whether a piece with `cells` at position `(x, y)` overlaps occupied
/// material, a wall or the floor. Every cell is tested, not just the
/// bounding box, since the plus and the mirrored L are non-rectangular.
pub open spec fn collides(rows: Seq<u8>, cells: Seq<(u8, u8)>, x: int, y: int) -> bool {
    exists|i: int|
        0 <= i < cells.len() && occ(
            rows,
            x + (#[trigger] cells[i]).0 as int,
            y + cells[i].1 as int,
        )
}

/// The horizontal target of a push command.
pub open spec fn push_of(d: Direction, x: int) -> int {
    match d {
        Direction::Left => x - 1,
        Direction::Right => x + 1,
    }
}

/// The journey of one piece released at `(x, y)` with the command
/// cursor at `cur`: alternately a horizontal push (skipped when it
/// would collide) and a one-row drop, until the drop would collide.
/// Returns the resting position and the cursor after the last command.
pub open spec fn drop_spec(
    rows: Seq<u8>,
    cmds: Seq<Direction>,
    cur: nat,
    cells: Seq<(u8, u8)>,
    x: int,
    y: int,
) -> (int, int, nat)
    decreases y + 1,
{
    if y < 0 || cmds.len() == 0 {
        (x, y, cur)
    } else {
        let d = cmds[(cur % cmds.len()) as int];
        let x2 = if collides(rows, cells, push_of(d, x), y) {
            x
        } else {
            push_of(d, x)
        };
        if collides(rows, cells, x2, y - 1) {
            (x2, y, cur + 1)
        } else {
            drop_spec(rows, cmds, cur + 1, cells, x2, y - 1)
        }
    }
}

/// Collision test against the shaft, evaluated over all of the cells.
fn hits(shaft: &Shaft, cells: &Vec<(u8, u8)>, x: i64, y: i64) -> (b: bool)
    requires
        shaft@.len() < usize::MAX,
        -8 <= x <= 16,
        -8 <= y <= i64::MAX - 8,
        forall|i: int| 0 <= i < cells@.len() ==> (#[trigger] cells@[i]).0 < 4 && cells@[i].1 < 4,
    ensures
        b == collides(shaft@, cells@, x as int, y as int),
{
    let mut i: usize = 0;
    while i < cells.len()
        invariant
            0 <= i <= cells@.len(),
            shaft@.len() < usize::MAX,
            -8 <= x <= 16,
            -8 <= y <= i64::MAX - 8,
            forall|j: int|
                0 <= j < cells@.len() ==> (#[trigger] cells@[j]).0 < 4 && cells@[j].1 < 4,
            forall|j: int|
                0 <= j < i ==> !occ(shaft@, x + (#[trigger] cells@[j]).0 as int, y + cells@[j].1 as int),
        decreases cells@.len() - i,
    {
        let (dx, dy) = cells[i];
        if shaft.is_occupied(x + (dx as i64), y + (dy as i64)) {
            proof {
                assert(occ(shaft@, x + ((cells@[i as int]).0 as int), y + ((cells@[i as int]).1 as int)));
            }
            return true;
        }
        i = i + 1;
    }
    false
}

/// Resolves one piece's journey from its entry position to rest. The
/// result equals the mathematical drop relation, the resting position
/// collides one row further down (the piece cannot move down), and the
/// piece itself rests collision-free.
fn drop_piece(
    shaft: &Shaft,
    cmds: &Vec<Direction>,
    cur: u64,
    Ghost(gcur): Ghost<nat>,
    cells: &Vec<(u8, u8)>,
    x: i64,
    y: i64,
) -> (r: (i64, i64, u64))
    requires
        cmds@.len() > 0,
        shaft@.len() < usize::MAX - 8,
        cur as nat == gcur % (cmds@.len() as nat),
        cur < cmds@.len(),
        cmds@.len() < 100000000,
        piece_ok(cells@),
        0 <= x <= 6,
        0 <= y <= i64::MAX - 16,
        !collides(shaft@, cells@, x as int, y as int),
    ensures
        ({
            let (sx, sy, scur) = drop_spec(shaft@, cmds@, gcur, cells@, x as int, y as int);
            &&& r.0 == sx
            &&& r.1 == sy
            &&& r.2 as nat == scur % (cmds@.len() as nat)
        }),
        0 <= r.0 <= 6,
        0 <= r.1 <= y,
        !collides(shaft@, cells@, r.0 as int, r.1 as int),
        collides(shaft@, cells@, r.0 as int, r.1 - 1),
    decreases y,
{
    let d = cmds[cur as usize];
    proof {
        assert(cmds@[cur as int] == cmds@[(gcur % (cmds@.len() as nat)) as int]);
    }
    let cand: i64 = match d {
        Direction::Left => x - 1,
        Direction::Right => x + 1,
    };
    let x2 = if hits(shaft, cells, cand, y) {
        x
    } else {
        cand
    };
    proof {
        // an accepted push keeps the piece between the walls
        if x2 == cand && !collides(shaft@, cells@, cand as int, y as int) {
            let iw = choose|i: int| 0 <= i < cells@.len() && (#[trigger] cells@[i]).0 == 0;
            assert(!occ(shaft@, cand + (cells@[iw].0 as int), y + (cells@[iw].1 as int)));
            assert(cand >= 0);
            let i0 = choose|i: int| 0 <= i < cells@.len() && (#[trigger] cells@[i]).1 < 4;
            assert(!occ(shaft@, cand + (cells@[0].0 as int), y + (cells@[0].1 as int)));
            assert(cand + (cells@[0].0 as int) < 7);
            assert(cand <= 6);
        }
    }
    let next_cur = if cur + 1 == cmds.len() as u64 {
        0
    } else {
        cur + 1
    };
    proof {
        let m = cmds@.len() as int;
        vstd::arithmetic::div_mod::lemma_add_mod_noop(gcur as int, 1int, m);
        assert(((gcur + 1) as int) % m == (((gcur as int) % m) + (1int % m)) % m);
        if m == 1 {
            vstd::arithmetic::div_mod::lemma_mod_self_0(1int);
            vstd::arithmetic::div_mod::lemma_small_mod(0nat, 1nat);
            assert(next_cur as int == ((gcur + 1) as int) % m);
        } else {
            vstd::arithmetic::div_mod::lemma_small_mod(1nat, m as nat);
            if cur + 1 == cmds.len() as u64 {
                vstd::arithmetic::div_mod::lemma_mod_self_0(m);
                assert(next_cur as int == ((gcur + 1) as int) % m);
            } else {
                vstd::arithmetic::div_mod::lemma_small_mod((cur + 1) as nat, m as nat);
                assert(next_cur as int == ((gcur + 1) as int) % m);
            }
        }
    }
    if hits(shaft, cells, x2, y - 1) {
        proof {
            assert(drop_spec(shaft@, cmds@, gcur, cells@, x as int, y as int) == (
                x2 as int,
                y as int,
                gcur + 1,
            ));
        }
        (x2, y, next_cur)
    } else {
        proof {
            // below the floor the bottom cell always collides
            if y == 0 {
                let ib = choose|i: int| 0 <= i < cells@.len() && (#[trigger] cells@[i]).1 == 0;
                assert(occ(shaft@, x2 + (cells@[ib].0 as int), -1 + (cells@[ib].1 as int)));
                assert(collides(shaft@, cells@, x2 as int, y - 1));
                assert(false);
            }
            assert(drop_spec(shaft@, cmds@, gcur, cells@, x as int, y as int) == drop_spec(
                shaft@,
                cmds@,
                gcur + 1,
                cells@,
                x2 as int,
                y - 1,
            ));
        }
        drop_piece(shaft, cmds, next_cur, Ghost(gcur + 1), cells, x2, y - 1)
    }
}


// ---------------------------------------------------------------------
// Whole-run simulation model
// ---------------------------------------------------------------------

/// One piece resolved: piece number `k` enters at column 2, three rows
/// above the tower, is dropped to rest and settled.
pub open spec fn sim_step(cmds: Seq<Direction>, rows: Seq<u8>, cur: nat, k: nat) -> (Seq<u8>, nat) {
    let cells = piece_cells((k % 5) as int);
    let res = drop_spec(rows, cmds, cur, cells, 2, rows.len() as int + 3);
    (settle_cells(rows, cells, res.0, res.1, cells.len() as int), res.2)
}

/// The shaft model and command cursor after `k` pieces have settled,
/// starting from an empty shaft.
pub open spec fn state_at(cmds: Seq<Direction>, k: nat) -> (Seq<u8>, nat)
    decreases k,
{
    if k == 0 {
        (Seq::<u8>::empty(), 0nat)
    } else {
        let s = state_at(cmds, (k - 1) as nat);
        sim_step(cmds, s.0, s.1, (k - 1) as nat)
    }
}

/// The tower height (count of occupied rows) after `k` pieces.
pub open spec fn height_after(cmds: Seq<Direction>, k: nat) -> nat {
    state_at(cmds, k).0.len()
}

/// A piece comes to rest no higher than where it was released.
proof fn lemma_drop_spec_y_le(
    rows: Seq<u8>,
    cmds: Seq<Direction>,
    cur: nat,
    cells: Seq<(u8, u8)>,
    x: int,
    y: int,
)
    ensures
        drop_spec(rows, cmds, cur, cells, x, y).1 <= y,
    decreases y + 1,
{
    if !(y < 0 || cmds.len() == 0) {
        let d = cmds[(cur % cmds.len()) as int];
        let x2 = if collides(rows, cells, push_of(d, x), y) {
            x
        } else {
            push_of(d, x)
        };
        if !collides(rows, cells, x2, y - 1) {
            lemma_drop_spec_y_le(rows, cmds, cur + 1, cells, x2, y - 1);
        }
    }
}

/// Settling cannot shrink the shaft.
proof fn lemma_settle_len_ge(rows: Seq<u8>, cells: Seq<(u8, u8)>, x: int, y: int, k: int)
    ensures
        settle_cells(rows, cells, x, y, k).len() >= rows.len(),
    decreases k,
{
    if k > 0 {
        lemma_settle_len_ge(rows, cells, x, y, k - 1);
    }
}

/// Settling a piece whose cells stay below row `y + 4` cannot raise the
/// shaft above that row.
proof fn lemma_settle_len_le(rows: Seq<u8>, cells: Seq<(u8, u8)>, x: int, y: int, k: int)
    requires
        forall|i: int| 0 <= i < cells.len() ==> (#[trigger] cells[i]).1 < 4,
        0 <= k <= cells.len(),
        y >= 0,
    ensures
        settle_cells(rows, cells, x, y, k).len() <= if rows.len() >= y + 4 {
            rows.len() as int
        } else {
            y + 4
        },
    decreases k,
{
    if k > 0 {
        lemma_settle_len_le(rows, cells, x, y, k - 1);
    }
}

/// The tower only grows as pieces settle, and by at most seven rows per
/// piece.
pub proof fn lemma_height_monotone(cmds: Seq<Direction>, a: nat, b: nat)
    requires
        a <= b,
    ensures
        height_after(cmds, a) <= height_after(cmds, b),
        height_after(cmds, b) <= height_after(cmds, a) + 7 * (b - a),
    decreases b,
{
    if a < b {
        lemma_height_monotone(cmds, a, (b - 1) as nat);
        let s = state_at(cmds, (b - 1) as nat);
        let cells = piece_cells((((b - 1) as nat) % 5) as int);
        let res = drop_spec(s.0, cmds, s.1, cells, 2, s.0.len() as int + 3);
        lemma_settle_len_ge(s.0, cells, res.0, res.1, cells.len() as int);
        lemma_drop_spec_y_le(s.0, cmds, s.1, cells, 2, s.0.len() as int + 3);
        if res.1 >= 0 {
            lemma_settle_len_le(s.0, cells, res.0, res.1, cells.len() as int);
        } else {
            lemma_settle_len_neg(s.0, cells, res.0, res.1, cells.len() as int);
        }
    }
}

/// Settling below the floor cannot extend the shaft either.
proof fn lemma_settle_len_neg(rows: Seq<u8>, cells: Seq<(u8, u8)>, x: int, y: int, k: int)
    requires
        forall|i: int| 0 <= i < cells.len() ==> (#[trigger] cells[i]).1 < 4,
        0 <= k <= cells.len(),
        y < 0,
    ensures
        settle_cells(rows, cells, x, y, k).len() <= if rows.len() >= y + 4 {
            rows.len() as int
        } else {
            y + 4
        },
    decreases k,
{
    if k > 0 {
        lemma_settle_len_neg(rows, cells, x, y, k - 1);
    }
}

/// Runs the simulation from an empty shaft for `n` pieces.
pub fn simulate(cmds: &Vec<Direction>, n: u64) -> (s: Shaft)
    requires
        cmds@.len() > 0,
        cmds@.len() < 100000000,
        n <= 100000000,
    ensures
        s@ == state_at(cmds@, n as nat).0,
        rows_wf(s@),
        s@.len() <= 7 * n,
{
    let mut shaft = Shaft::new();
    let mut cursor: u64 = 0;
    let ghost mut gcur: nat = 0nat;
    let mut i: u64 = 0;
    proof {
        assert(state_at(cmds@, 0nat).0 =~= Seq::<u8>::empty());
    }
    while i < n
        invariant
            cmds@.len() > 0,
            cmds@.len() < 100000000,
            n <= 100000000,
            0 <= i <= n,
            shaft@ == state_at(cmds@, i as nat).0,
            gcur == state_at(cmds@, i as nat).1,
            cursor as nat == gcur % (cmds@.len() as nat),
            cursor < cmds@.len(),
            rows_wf(shaft@),
            shaft@.len() <= 7 * i,
        decreases n - i,
    {
        let stepped = step_piece(&mut shaft, cmds, cursor, Ghost(gcur), i);
        cursor = stepped.0;
        proof {
            gcur = stepped.1@;
        }
        i = i + 1;
    }
    shaft
}

/// Resolves piece number `i` against the shaft: entry, pushes and
/// drops, and the final settling.
fn step_piece(
    shaft: &mut Shaft,
    cmds: &Vec<Direction>,
    cursor: u64,
    Ghost(gcur): Ghost<nat>,
    i: u64,
) -> (r: (u64, Ghost<nat>))
    requires
        cmds@.len() > 0,
        cmds@.len() < 100000000,
        old(shaft)@.len() <= 700000000,
        rows_wf(old(shaft)@),
        cursor as nat == gcur % (cmds@.len() as nat),
        cursor < cmds@.len(),
    ensures
        final(shaft)@ == sim_step(cmds@, old(shaft)@, gcur, i as nat).0,
        r.1@ == sim_step(cmds@, old(shaft)@, gcur, i as nat).1,
        r.0 as nat == r.1@ % (cmds@.len() as nat),
        r.0 < cmds@.len(),
        rows_wf(final(shaft)@),
        final(shaft)@.len() >= old(shaft)@.len(),
        final(shaft)@.len() <= old(shaft)@.len() + 7,
{
    let piece = piece_for(i % 5);
    proof {
        lemma_catalog_ok(((i % 5) as u64) as int);
        assert(piece.cells@ == piece_cells(((i as nat) % 5) as int));
    }
    let h = shaft.height();
    let y0: i64 = (h as i64) + 3;
    proof {
        assert forall|j: int| 0 <= j < piece.cells@.len() implies !occ(
            shaft@,
            2 + ((#[trigger] piece.cells@[j]).0 as int),
            y0 + (piece.cells@[j].1 as int),
        ) by {
            assert(y0 + (piece.cells@[j].1 as int) >= shaft@.len());
            assert(0 <= 2 + ((piece.cells@[j]).0 as int) < 7);
        }
        assert(!collides(shaft@, piece.cells@, 2int, y0 as int));
    }
    let (rx, ry, rcur) = drop_piece(shaft, cmds, cursor, Ghost(gcur), &piece.cells, 2, y0);
    proof {
        // at rest every cell sits inside the walls ...
        assert forall|j: int| 0 <= j < piece.cells@.len() implies rx + (
        (#[trigger] piece.cells@[j]).0 as int) < 7 by {
            assert(!occ(shaft@, rx + ((piece.cells@[j]).0 as int), ry + ((piece.cells@[j]).1 as int)));
        }
        // ... and the piece is supported: it cannot sit above the first
        // empty row
        assert(ry <= shaft@.len()) by {
            if ry > 0 {
                let jb = choose|j: int|
                    0 <= j < piece.cells@.len() && occ(
                        shaft@,
                        rx + ((#[trigger] piece.cells@[j]).0 as int),
                        ry - 1 + ((piece.cells@[j]).1 as int),
                    );
                assert(ry - 1 + ((piece.cells@[jb]).1 as int) >= 0);
                assert(ry - 1 + ((piece.cells@[jb]).1 as int) < shaft@.len());
            }
        }
    }
    let ghost pre = shaft@;
    shaft.settle(&piece.cells, rx as u8, ry as u64);
    proof {
        lemma_settle_len_le(pre, piece.cells@, rx as int, ry as int, piece.cells@.len() as int);
        assert(shaft@ == sim_step(cmds@, pre, gcur, i as nat).0);
    }
    (rcur, Ghost(sim_step(cmds@, pre, gcur, i as nat).1))
}


// ---------------------------------------------------------------------
// Skyline fingerprint & cycle detection
// ---------------------------------------------------------------------

/// Searches column `c` downwards from the highest row: the distance to
/// its first occupied cell, capped at the window `w`. A column with no
/// occupied cell within the window reports the cap.
pub open spec fn depth_from(rows: Seq<u8>, c: int, t: nat, w: nat) -> nat
    decreases w - t,
{
    if t >= w || t >= rows.len() {
        w
    } else if 0 <= c < 7 && mask_bit(rows[rows.len() - 1 - t], c as u8) {
        t
    } else {
        depth_from(rows, c, (t + 1) as nat, w)
    }
}

/// The skyline profile: for each column, the relative depth of its
/// topmost occupied cell, measured from the current highest row and
/// capped at the window.
pub open spec fn profile_spec(rows: Seq<u8>, w: u8) -> Seq<u8> {
    Seq::new(7, |c: int| depth_from(rows, c, 0, w as nat) as u8)
}

proof fn lemma_depth_le(rows: Seq<u8>, c: int, t: nat, w: nat)
    requires
        t <= w,
    ensures
        t <= depth_from(rows, c, t, w) <= w,
    decreases w - t,
{
    if !(t >= w || t >= rows.len()) && !(0 <= c < 7 && mask_bit(rows[rows.len() - 1 - t], c as u8)) {
        lemma_depth_le(rows, c, (t + 1) as nat, w);
    }
}

impl Shaft {
    /// The per-column relative depth of the topmost occupied cell,
    /// capped at `window`: the basis of the cycle fingerprint.
    pub fn skyline_profile(&self, window: u8) -> (p: Vec<u8>)
        requires
            self@.len() < usize::MAX - 8,
        ensures
            p@ =~= profile_spec(self@, window),
    {
        let mut p: Vec<u8> = Vec::new();
        let mut c: u8 = 0;
        while c < 7
            invariant
                0 <= c <= 7,
                self@.len() < usize::MAX - 8,
                p@.len() == c,
                forall|j: int| 0 <= j < c ==> p@[j] as nat == depth_from(self@, j, 0, window as nat),
            decreases 7 - c,
        {
            let mut t: u8 = 0;
            let mut depth: u8 = window;
            let mut found = false;
            let n = self.rows.len();
            while t < window && (t as usize) < n && !found
                invariant
                    n == self@.len(),
                    n < usize::MAX - 8,
                    0 <= t <= window,
                    c < 7,
                    !found ==> depth_from(self@, c as int, 0, window as nat) == depth_from(
                        self@,
                        c as int,
                        t as nat,
                        window as nat,
                    ),
                    found ==> depth_from(self@, c as int, 0, window as nat) == depth as nat,
                    found ==> depth <= window,
                    !found ==> depth == window,
                decreases window - t + (if found { 0int } else { 1int }),
            {
                let m = self.rows[n - 1 - (t as usize)];
                if ((m >> c) & 1) == 1 {
                    proof {
                        assert(mask_bit(self@[n - 1 - t as int], c));
                    }
                    depth = t;
                    found = true;
                } else {
                    t = t + 1;
                }
            }
            proof {
                if !found {
                    assert(depth_from(self@, c as int, t as nat, window as nat) == window as nat);
                }
                lemma_depth_le(self@, c as int, 0, window as nat);
            }
            p.push(depth);
            c = c + 1;
        }
        proof {
            assert(p@ =~= profile_spec(self@, window));
        }
        p
    }
}

/// A compact summary of the simulation state after a piece settles:
/// the skyline profile, the phase of the cyclic command stream, and
/// the phase of the piece rotation. Two states with equal fingerprints
/// are taken to behave identically from then on; this is a
/// bounded-window heuristic, not a proof of periodicity.
pub struct Fingerprint {
    pub profile: Vec<u8>,
    pub cmd_phase: u64,
    pub piece_phase: u64,
}

/// The mathematical fingerprint after `k` pieces.
pub open spec fn fp_at(cmds: Seq<Direction>, k: nat) -> (Seq<u8>, nat, nat) {
    (
        profile_spec(state_at(cmds, k).0, PROFILE_WINDOW),
        state_at(cmds, k).1 % cmds.len(),
        k % 5,
    )
}

/// A fingerprint seen after piece `d` was already seen after some
/// earlier piece.
pub open spec fn repeats_at(cmds: Seq<Direction>, d: nat) -> bool {
    exists|r: nat| 1 <= r < d && #[trigger] fp_at(cmds, r) == fp_at(cmds, d)
}

/// Whether two recorded fingerprints are equal.
fn fp_eq(a: &Fingerprint, b: &Fingerprint) -> (r: bool)
    ensures
        r == ((a.profile@, a.cmd_phase as nat, a.piece_phase as nat) == (
            b.profile@,
            b.cmd_phase as nat,
            b.piece_phase as nat,
        )),
{
    let pr = crate::scan::bytes_eq(a.profile.as_slice(), b.profile.as_slice());
    let r = pr && a.cmd_phase == b.cmd_phase && a.piece_phase == b.piece_phase;
    proof {
        if r {
            assert(a.profile@ == b.profile@);
        }
        if (a.profile@, a.cmd_phase as nat, a.piece_phase as nat) == (
            b.profile@,
            b.cmd_phase as nat,
            b.piece_phase as nat,
        ) {
            assert(a.profile@ =~= b.profile@);
        }
    }
    r
}

/// A detected repetition of the fingerprint: the piece count and
/// height when the fingerprint was first recorded (`start`), when it
/// came back (`detected_at`), and the growth in between.
pub struct CycleRecord {
    pub start: u64,
    pub detected_at: u64,
    pub pieces_per_cycle: u64,
    pub height_per_cycle: u64,
    pub height_at_start: u64,
    pub height_at_detect: u64,
}

/// What the detector guarantees of a returned record: the fingerprint
/// after `start` equals the one after `detected_at`, `detected_at` is
/// the first piece whose fingerprint repeats any earlier one, `start`
/// is the earliest match, and the piece and height deltas are taken
/// from the simulation itself.
pub open spec fn cycle_record_ok(cmds: Seq<Direction>, rec: CycleRecord) -> bool {
    &&& 1 <= rec.start < rec.detected_at
    &&& fp_at(cmds, rec.start as nat) == fp_at(cmds, rec.detected_at as nat)
    &&& rec.pieces_per_cycle == rec.detected_at - rec.start
    &&& rec.height_at_start == height_after(cmds, rec.start as nat)
    &&& rec.height_at_detect == height_after(cmds, rec.detected_at as nat)
    &&& rec.height_per_cycle == rec.height_at_detect - rec.height_at_start
    &&& forall|d: nat| 1 <= d < rec.detected_at ==> !repeats_at(cmds, d)
    &&& forall|r: nat|
        1 <= r < rec.start ==> #[trigger] fp_at(cmds, r) != fp_at(cmds, rec.detected_at as nat)
}

/// Simulates up to `limit` pieces, recording a fingerprint after each
/// settles, and reports the first repetition.
pub fn find_cycle(cmds: &Vec<Direction>, limit: u64) -> (r: Option<CycleRecord>)
    requires
        cmds@.len() > 0,
        cmds@.len() < 100000000,
        limit <= 1000000,
    ensures
        match r {
            None => forall|d: nat| 1 <= d <= limit ==> !repeats_at(cmds@, d),
            Some(rec) => cycle_record_ok(cmds@, rec) && rec.detected_at <= limit,
        },
{
    let mut shaft = Shaft::new();
    let mut cursor: u64 = 0;
    let ghost mut gcur: nat = 0nat;
    let mut history: Vec<Fingerprint> = Vec::new();
    let mut heights: Vec<u64> = Vec::new();
    let mut i: u64 = 0;
    proof {
        assert(state_at(cmds@, 0nat).0 =~= Seq::<u8>::empty());
    }
    while i < limit
        invariant
            cmds@.len() > 0,
            cmds@.len() < 100000000,
            limit <= 1000000,
            0 <= i <= limit,
            shaft@ == state_at(cmds@, i as nat).0,
            gcur == state_at(cmds@, i as nat).1,
            cursor as nat == gcur % (cmds@.len() as nat),
            cursor < cmds@.len(),
            rows_wf(shaft@),
            shaft@.len() <= 7 * i,
            history@.len() == i,
            heights@.len() == i,
            forall|j: int|
                0 <= j < i ==> ((#[trigger] history@[j]).profile@, history@[j].cmd_phase as nat,
                history@[j].piece_phase as nat) == fp_at(cmds@, (j + 1) as nat),
            forall|j: int| 0 <= j < i ==> #[trigger] heights@[j] as nat == height_after(
                cmds@,
                (j + 1) as nat,
            ),
            forall|d: nat| 1 <= d <= i ==> !repeats_at(cmds@, d),
        decreases limit - i,
    {
        let stepped = step_piece(&mut shaft, cmds, cursor, Ghost(gcur), i);
        cursor = stepped.0;
        proof {
            gcur = stepped.1@;
        }
        i = i + 1;
        let profile = shaft.skyline_profile(PROFILE_WINDOW);
        let fp = Fingerprint { profile, cmd_phase: cursor, piece_phase: i % 5 };
        proof {
            assert((fp.profile@, fp.cmd_phase as nat, fp.piece_phase as nat) == fp_at(
                cmds@,
                i as nat,
            ));
        }
        let mut j: usize = 0;
        while j < history.len()
            invariant
                history@.len() == i - 1,
                heights@.len() == i - 1,
                0 <= j <= history@.len(),
                1 <= i,
                i <= limit <= 1000000,
                shaft@.len() <= 7 * i,
                shaft@ == state_at(cmds@, i as nat).0,
                rows_wf(shaft@),
                (fp.profile@, fp.cmd_phase as nat, fp.piece_phase as nat) == fp_at(cmds@, i as nat),
                forall|jj: int|
                    0 <= jj < i - 1 ==> ((#[trigger] history@[jj]).profile@, history@[jj].cmd_phase
                        as nat, history@[jj].piece_phase as nat) == fp_at(cmds@, (jj + 1) as nat),
                forall|jj: int| 0 <= jj < i - 1 ==> #[trigger] heights@[jj] as nat == height_after(
                    cmds@,
                    (jj + 1) as nat,
                ),
                forall|d: nat| 1 <= d <= i - 1 ==> !repeats_at(cmds@, d),
                forall|rr: nat| 1 <= rr <= j ==> #[trigger] fp_at(cmds@, rr) != fp_at(cmds@, i as nat),
            decreases history@.len() - j,
        {
            if fp_eq(&history[j], &fp) {
                let start = (j as u64) + 1;
                let height_at_start = heights[j];
                let height_at_detect = shaft.height();
                proof {
                    lemma_height_monotone(cmds@, start as nat, i as nat);
                    assert(repeats_at(cmds@, i as nat)) by {
                        assert(1 <= (start as nat) && (start as nat) < (i as nat) && fp_at(
                            cmds@,
                            start as nat,
                        ) == fp_at(cmds@, i as nat));
                    }
                }
                let rec = CycleRecord {
                    start,
                    detected_at: i,
                    pieces_per_cycle: i - start,
                    height_per_cycle: height_at_detect - height_at_start,
                    height_at_start,
                    height_at_detect,
                };
                return Some(rec);
            }
            j = j + 1;
        }
        proof {
            assert forall|d: nat| 1 <= d <= i implies !repeats_at(cmds@, d) by {
                if d < i {
                    assert(!repeats_at(cmds@, d));
                } else {
                    assert(forall|rr: nat|
                        1 <= rr < i ==> #[trigger] fp_at(cmds@, rr) != fp_at(cmds@, i as nat));
                }
            }
        }
        history.push(fp);
        let h = shaft.height();
        heights.push(h);
    }
    None
}


// ---------------------------------------------------------------------
// Height extrapolation
// ---------------------------------------------------------------------

/// The ceiling on the detector's piece budget, whatever the input.
pub const SEARCH_CAP: u64 = 1000000;

/// How many pieces the detector simulates for a command stream of
/// `cmds_len` commands and a target of `n` pieces: proportional to
/// shaft width times command length (seven columns by five piece
/// shapes covers every phase pairing many times over), capped for
/// very long streams, and never beyond `n` itself.
pub open spec fn search_bound(cmds_len: int, n: u64) -> int {
    let proportional = (SHAFT_WIDTH as int) * 5 * cmds_len + 100;
    let capped = if proportional > SEARCH_CAP {
        SEARCH_CAP as int
    } else {
        proportional
    };
    if n < capped {
        n as int
    } else {
        capped
    }
}

/// The extrapolated height for `n` pieces given a cycle record: the
/// height when the repeated fingerprint was first seen, plus one cycle
/// gain per full cycle remaining, plus the directly simulated height
/// gain of the leftover pieces past the detection point.
pub open spec fn extrapolated(cmds: Seq<Direction>, rec: CycleRecord, n: u64) -> int {
    let full = (n - rec.start) as int / rec.pieces_per_cycle as int;
    let rem = (n - rec.start) as int % rec.pieces_per_cycle as int;
    rec.height_at_start + full * rec.height_per_cycle + (height_after(
        cmds,
        (rec.detected_at + rem) as nat,
    ) - rec.height_at_detect)
}

/// The final tower height for `n` pieces: a direct simulation when no
/// fingerprint repeats within the search bound, and the cycle
/// extrapolation otherwise.
pub fn extrapolate_height(cmds: &Vec<Direction>, n: u64) -> (h: u64)
    requires
        cmds@.len() > 0,
        cmds@.len() < 100000000,
        n <= 100000000000000,
    ensures
        (forall|d: nat|
            1 <= d <= search_bound(cmds@.len() as int, n) ==> !repeats_at(cmds@, d)) ==> h as nat
            == height_after(cmds@, search_bound(cmds@.len() as int, n) as nat),
        !(forall|d: nat|
            1 <= d <= search_bound(cmds@.len() as int, n) ==> !repeats_at(cmds@, d)) ==> exists|
            rec: CycleRecord,
        |
            cycle_record_ok(cmds@, rec) && rec.detected_at <= search_bound(
                cmds@.len() as int,
                n,
            ) && h as int == extrapolated(cmds@, rec, n),
{
    let len64 = cmds.len() as u64;
    let per_command = (SHAFT_WIDTH as u64) * 5;
    proof {
        assert(per_command == 35);
        assert(len64 < 100000000);
        assert(per_command * len64 < 3500000000) by (nonlinear_arith)
            requires
                per_command == 35,
                len64 < 100000000,
        ;
    }
    let proportional = per_command * len64 + 100;
    let capped = if proportional > SEARCH_CAP {
        SEARCH_CAP
    } else {
        proportional
    };
    let lim = if n < capped {
        n
    } else {
        capped
    };
    proof {
        assert(lim as int == search_bound(cmds@.len() as int, n));
    }
    match find_cycle(cmds, lim) {
        None => {
            let s = simulate(cmds, lim);
            s.height()
        },
        Some(rec) => {
            let ll = rec.pieces_per_cycle;
            let full = (n - rec.start) / ll;
            let rem = (n - rec.start) % ll;
            let target = rec.detected_at + rem;
            proof {
                vstd::arithmetic::div_mod::lemma_fundamental_div_mod((n - rec.start) as int, ll as int);
                vstd::arithmetic::div_mod::lemma_mod_division_less_than_divisor(
                    (n - rec.start) as int,
                    ll as int,
                );
                vstd::arithmetic::div_mod::lemma_div_is_ordered_by_denominator(
                    (n - rec.start) as int,
                    1int,
                    ll as int,
                );
                lemma_height_monotone(cmds@, rec.start as nat, rec.detected_at as nat);
                assert(rec.height_per_cycle <= 7 * ll);
                assert((full as int) * (rec.height_per_cycle as int) <= 7 * ((n - rec.start) as int))
                    by (nonlinear_arith)
                    requires
                        rec.height_per_cycle <= 7 * ll,
                        (n - rec.start) as int == (ll as int) * (full as int) + (rem as int),
                        full >= 0,
                        rem >= 0,
                        ll >= 1,
                ;
            }
            let s = simulate(cmds, target);
            let ht = s.height();
            proof {
                lemma_height_monotone(cmds@, rec.detected_at as nat, target as nat);
                lemma_height_monotone(cmds@, 0nat, rec.start as nat);
                assert(exists|d: nat|
                    1 <= d <= search_bound(cmds@.len() as int, n) && #[trigger] repeats_at(
                        cmds@,
                        d,
                    )) by {
                    assert(repeats_at(cmds@, rec.detected_at as nat) && 1 <= rec.detected_at as nat
                        <= search_bound(cmds@.len() as int, n));
                }
            }
            let h = rec.height_at_start + full * rec.height_per_cycle + (ht
                - rec.height_at_detect);
            proof {
                assert(cycle_record_ok(cmds@, rec) && rec.detected_at <= search_bound(
                    cmds@.len() as int,
                    n,
                ) && h as int == extrapolated(cmds@, rec, n));
            }
            h
        },
    }
}

// ---------------------------------------------------------------------
// Command parsing
// ---------------------------------------------------------------------

/// The push directions read from the raw input bytes: `<` pushes left,
/// `>` pushes right, anything else is ignored.
pub open spec fn dirs_of(s: Seq<u8>) -> Seq<Direction>
    decreases s.len(),
{
    if s.len() == 0 {
        Seq::empty()
    } else {
        dirs_of(s.drop_last()) + (if s.last() == 60 {
            seq![Direction::Left]
        } else if s.last() == 62 {
            seq![Direction::Right]
        } else {
            Seq::empty()
        })
    }
}

/// Decodes the command stream: one `Direction` per `<` or `>` in the
/// input, in order; all other characters are skipped.
pub fn parse_input(input: &str) -> (r: Vec<Direction>)
    ensures
        r@ == dirs_of(input.spec_bytes()),
{
    let bytes = input.as_bytes();
    let mut r: Vec<Direction> = Vec::new();
    let mut i: usize = 0;
    proof {
        assert(bytes@.take(0) =~= Seq::<u8>::empty());
    }
    while i < bytes.len()
        invariant
            0 <= i <= bytes@.len(),
            r@ == dirs_of(bytes@.take(i as int)),
            bytes@ == input.spec_bytes(),
        decreases bytes@.len() - i,
    {
        let b = bytes[i];
        proof {
            assert(bytes@.take(i + 1).drop_last() =~= bytes@.take(i as int));
            assert(bytes@.take(i + 1).last() == bytes@[i as int]);
        }
        if b == 60 {
            r.push(Direction::Left);
            proof {
                assert(r@ =~= dirs_of(bytes@.take(i + 1)));
            }
        } else if b == 62 {
            r.push(Direction::Right);
            proof {
                assert(r@ =~= dirs_of(bytes@.take(i + 1)));
            }
        } else {
            proof {
                assert(r@ =~= dirs_of(bytes@.take(i + 1)));
            }
        }
        i = i + 1;
    }
    proof {
        assert(bytes@.take(bytes@.len() as int) =~= bytes@);
    }
    r
}

// ---------------------------------------------------------------------
// Puzzle entry points
// ---------------------------------------------------------------------

/// The tower height after 2022 pieces, directly simulated.
pub fn puzzle_1(input: &str) -> (r: String)
    ensures
        ({
            let ds = dirs_of(input.spec_bytes());
            &&& (0 < ds.len() < 100000000) ==> r@ == dec_digits(height_after(ds, 2022))
            &&& !(0 < ds.len() < 100000000) ==> r@ == dec_digits(0)
        }),
{
    let dirs = parse_input(input);
    if dirs.len() == 0 || dirs.len() >= 100000000 {
        return u64_string(0);
    }
    let shaft = simulate(&dirs, 2022);
    u64_string(shaft.height())
}

/// The tower height after one trillion pieces, computed through the
/// cycle-extrapolation path.
pub fn puzzle_2(input: &str) -> (r: String)
    ensures
        ({
            let ds = dirs_of(input.spec_bytes());
            let n: u64 = 1000000000000;
            &&& ((0 < ds.len() < 100000000) && (forall|d: nat|
                1 <= d <= search_bound(ds.len() as int, n) ==> !repeats_at(ds, d))) ==> r@
                == dec_digits(height_after(ds, search_bound(ds.len() as int, n) as nat))
            &&& ((0 < ds.len() < 100000000) && !(forall|d: nat|
                1 <= d <= search_bound(ds.len() as int, n) ==> !repeats_at(ds, d))) ==> exists|
                rec: CycleRecord,
            |
                cycle_record_ok(ds, rec) && rec.detected_at <= search_bound(ds.len() as int, n)
                    && extrapolated(ds, rec, n) >= 0 && r@ == dec_digits(
                    extrapolated(ds, rec, n) as nat,
                )
            &&& !(0 < ds.len() < 100000000) ==> r@ == dec_digits(0)
        }),
{
    let dirs = parse_input(input);
    if dirs.len() == 0 || dirs.len() >= 100000000 {
        return u64_string(0);
    }
    let h = extrapolate_height(&dirs, 1000000000000);
    u64_string(h)
}

// ---------------------------------------------------------------------
// Laws of the simulator
// ---------------------------------------------------------------------

/// The highest occupied row of column `c`, or `-1` while the column is
/// empty.
pub open spec fn col_highest(rows: Seq<u8>, c: int) -> int
    decreases rows.len(),
{
    if rows.len() == 0 {
        -1
    } else if 0 <= c < 7 && mask_bit(rows.last(), c as u8) {
        rows.len() - 1
    } else {
        col_highest(rows.drop_last(), c)
    }
}

proof fn lemma_col_highest_lb(rows: Seq<u8>, c: int)
    ensures
        -1 <= col_highest(rows, c) < rows.len(),
    decreases rows.len(),
{
    if rows.len() > 0 && !(0 <= c < 7 && mask_bit(rows.last(), c as u8)) {
        lemma_col_highest_lb(rows.drop_last(), c);
    }
}

/// An occupied cell bounds the column's highest row from below.
proof fn lemma_col_highest_ge_occ(rows: Seq<u8>, c: int, r: int)
    requires
        0 <= c < 7,
        0 <= r,
        occ(rows, c, r),
    ensures
        col_highest(rows, c) >= r,
    decreases rows.len(),
{
    if rows.len() > 0 {
        if !(mask_bit(rows.last(), c as u8)) {
            assert(r < rows.len() - 1 || !occ(rows, c, rows.len() - 1));
            assert(occ(rows.drop_last(), c, r)) by {
                assert(rows.drop_last()[r] == rows[r]);
            }
            lemma_col_highest_ge_occ(rows.drop_last(), c, r);
        }
    }
}

/// The column's highest row is itself occupied.
proof fn lemma_col_highest_occ(rows: Seq<u8>, c: int)
    requires
        0 <= c < 7,
        col_highest(rows, c) >= 0,
    ensures
        occ(rows, c, col_highest(rows, c)),
    decreases rows.len(),
{
    if rows.len() > 0 && !(mask_bit(rows.last(), c as u8)) {
        lemma_col_highest_lb(rows.drop_last(), c);
        lemma_col_highest_occ(rows.drop_last(), c);
        let h = col_highest(rows.drop_last(), c);
        assert(rows[h] == rows.drop_last()[h]);
    }
}

/// Monotonic growth: settling a piece never decreases any column's
/// highest occupied row.
pub proof fn lemma_settle_monotonic(
    rows: Seq<u8>,
    cells: Seq<(u8, u8)>,
    x: int,
    y: int,
    c: int,
)
    requires
        0 <= c < 7,
        forall|i: int| 0 <= i < rows.len() ==> #[trigger] rows[i] < 128,
        forall|i: int|
            0 <= i < cells.len() ==> 0 <= x + #[trigger] cells[i].0 < 7 && 0 <= y + cells[i].1,
    ensures
        col_highest(settle_cells(rows, cells, x, y, cells.len() as int), c) >= col_highest(
            rows,
            c,
        ),
{
    let settled = settle_cells(rows, cells, x, y, cells.len() as int);
    lemma_settle_cells_occ(rows, cells, x, y, cells.len() as int);
    lemma_col_highest_lb(rows, c);
    let h = col_highest(rows, c);
    if h >= 0 {
        lemma_col_highest_occ(rows, c);
        assert(occ(settled, c, h));
        lemma_col_highest_ge_occ(settled, c, h);
    } else {
        lemma_col_highest_lb(settled, c);
    }
}

/// Walls and floor: a query outside the shaft's columns, or below the
/// floor, always reads occupied, whatever has settled.
pub proof fn lemma_walls_and_floor(rows: Seq<u8>, c: int, r: int)
    requires
        c < 0 || c >= SHAFT_WIDTH || r < 0,
    ensures
        occ(rows, c, r),
{
}

/// Cycle soundness: simulating `pieces_per_cycle` additional pieces
/// from the recorded state reproduces exactly `height_per_cycle`
/// additional height and returns the skyline profile to the value that
/// detected the cycle.
pub proof fn lemma_cycle_round_trip(cmds: Seq<Direction>, rec: CycleRecord)
    requires
        cycle_record_ok(cmds, rec),
    ensures
        height_after(cmds, (rec.start + rec.pieces_per_cycle) as nat) == rec.height_at_start
            + rec.height_per_cycle,
        profile_spec(state_at(cmds, (rec.start + rec.pieces_per_cycle) as nat).0, PROFILE_WINDOW)
            == profile_spec(state_at(cmds, rec.start as nat).0, PROFILE_WINDOW),
{
    assert(rec.start + rec.pieces_per_cycle == rec.detected_at);
    assert(fp_at(cmds, rec.start as nat).0 == fp_at(cmds, rec.detected_at as nat).0);
}

/// Idempotence: the simulated height is a function of the command
/// stream alone, so re-running the simulation with identical inputs
/// yields identical heights; there is no hidden mutable state.
pub proof fn lemma_rerun_identical(cmds: Seq<Direction>, n: nat, r1: Seq<char>, r2: Seq<char>)
    requires
        r1 == dec_digits(height_after(cmds, n)),
        r2 == dec_digits(height_after(cmds, n)),
    ensures
        r1 == r2,
{
}

/// Below a piece released over an empty shaft there is nothing to rest
/// on but the floor.
proof fn lemma_drop_empty_floor(
    cmds: Seq<Direction>,
    cur: nat,
    cells: Seq<(u8, u8)>,
    x: int,
    y: int,
)
    requires
        cmds.len() > 0,
        piece_ok(cells),
        y >= 0,
        forall|i: int|
            0 <= i < cells.len() ==> 0 <= x + ((#[trigger] cells[i]).0 as int) && x + (
            cells[i].0 as int) < 7,
    ensures
        drop_spec(Seq::<u8>::empty(), cmds, cur, cells, x, y).1 == 0,
    decreases y,
{
    let rows = Seq::<u8>::empty();
    let d = cmds[(cur % cmds.len()) as int];
    let cand = push_of(d, x);
    let x2 = if collides(rows, cells, cand, y) {
        x
    } else {
        cand
    };
    assert(forall|i: int|
        0 <= i < cells.len() ==> 0 <= x2 + ((#[trigger] cells[i]).0 as int) && x2 + (
        cells[i].0 as int) < 7) by {
        if x2 == cand && !collides(rows, cells, cand, y) {
            assert forall|i: int|
                0 <= i < cells.len() implies 0 <= cand + ((#[trigger] cells[i]).0 as int) && cand
                + (cells[i].0 as int) < 7 by {
                assert(!occ(rows, cand + (cells[i].0 as int), y + (cells[i].1 as int)));
            }
        }
    }
    if y == 0 {
        let ib = choose|i: int| 0 <= i < cells.len() && (#[trigger] cells[i]).1 == 0;
        assert(occ(rows, x2 + (cells[ib].0 as int), -1 + (cells[ib].1 as int)));
        assert(collides(rows, cells, x2, -1));
    } else {
        assert(!collides(rows, cells, x2, y - 1)) by {
            assert forall|i: int|
                0 <= i < cells.len() implies !occ(
                rows,
                x2 + ((#[trigger] cells[i]).0 as int),
                y - 1 + (cells[i].1 as int),
            ) by {
                assert(y - 1 + (cells[i].1 as int) >= 0);
                assert(y - 1 + (cells[i].1 as int) >= rows.len());
            }
        }
        lemma_drop_empty_floor(cmds, cur + 1, cells, x2, y - 1);
    }
}

/// Boundary: over an empty shaft, the first piece of a run comes to
/// rest directly on the floor.
pub proof fn lemma_first_piece_on_floor(cmds: Seq<Direction>)
    requires
        cmds.len() > 0,
    ensures
        drop_spec(Seq::<u8>::empty(), cmds, 0, piece_cells(0), 2, 3).1 == 0,
{
    lemma_catalog_ok(0);
    assert forall|i: int|
        0 <= i < piece_cells(0).len() implies 0 <= 2 + ((#[trigger] piece_cells(0)[i]).0 as int)
        && 2 + (piece_cells(0)[i].0 as int) < 7 by {}
    lemma_drop_empty_floor(cmds, 0, piece_cells(0), 2, 3);
}

} // verus!
