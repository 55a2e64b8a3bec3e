//! The HEVC in-loop deblocking filter (§8.7.2), for all-intra pictures.
//!
//! It works on an 8×8 grid rather than H.264's 4×4, so only every other
//! transform edge is a candidate; it decides per four lines whether to filter
//! at all, and then whether to filter *strongly*, from the second differences
//! either side of the edge; and the whole picture's vertical edges are
//! filtered before any horizontal one.
//!
//! Scope: every coding unit intra, one slice, filter offsets zero. That pins
//! the boundary strength at 2 on every filtered edge (§8.7.2.4).
//!
//! The model: a plane is the sequence of its samples, and each pass is a fold
//! over its edge segments in the normative order.

use crate::codec::hevc::deblock_tables::{BETA, TC};
use crate::num::{abs, clamp};
use vstd::prelude::*;

verus! {

/// Index of the 4×4 cell holding sample `(x, y)` in a grid `w4` cells wide.
pub open spec fn map_cell(w4: int, x: int, y: int) -> int {
    (y / 4) * w4 + x / 4
}

/// Which 8×8-grid edges exist, at four-sample granularity.
///
/// An edge is only a candidate where a transform block actually ends: inside
/// a 32×32 transform there is nothing to smooth at sample 8, 16 or 24, so the
/// tree's leaf boundaries are recorded as it is built.
pub struct EdgeMap {
    left: Vec<bool>,
    top: Vec<bool>,
    w4: usize,
}

impl View for EdgeMap {
    /// The left-edge marks, the top-edge marks, and the grid width in cells.
    type V = (Seq<bool>, Seq<bool>, nat);

    closed spec fn view(&self) -> (Seq<bool>, Seq<bool>, nat) {
        (self.left@, self.top@, self.w4 as nat)
    }
}

/// Cell `row`-th step of a left-edge mark: the cell of `(x, y + 4k)`.
pub open spec fn left_cell(w4: int, x: int, y: int, k: int) -> int {
    map_cell(w4, x, y + 4 * k)
}

/// Cell `k`-th step of a top-edge mark: the cell of `(x + 4k, y)`.
pub open spec fn top_cell(w4: int, x: int, y: int, k: int) -> int {
    map_cell(w4, x + 4 * k, y)
}

/// Whether marking the block at `(x, y)` of `size` sets left-edge cell `i`:
/// its left side lies on the 8-sample grid inside the picture, and `i` is the
/// cell of one of its rows, taken every four samples.
pub open spec fn mark_sets_left(w4: int, x: int, y: int, size: int, i: int) -> bool {
    x % 8 == 0 && x > 0 && exists|k: int| 0 <= k && 4 * k < size && #[trigger] left_cell(w4, x, y, k) == i
}

/// Whether marking the block at `(x, y)` of `size` sets top-edge cell `i`.
pub open spec fn mark_sets_top(w4: int, x: int, y: int, size: int, i: int) -> bool {
    y % 8 == 0 && y > 0 && exists|k: int| 0 <= k && 4 * k < size && #[trigger] top_cell(w4, x, y, k) == i
}

/// The cell of sample `(x, y)` as a `usize`, or `None` where it does not fit
/// (and so lies past any map).
fn cell_index(y: u64, x: u64, w4: u64) -> (r: Option<usize>)
    ensures
        r matches Some(i) ==> i == map_cell(w4 as int, x as int, y as int),
        r is None ==> map_cell(w4 as int, x as int, y as int) > usize::MAX,
{
    match (y / 4).checked_mul(w4) {
        Some(a) => match a.checked_add(x / 4) {
            Some(b) => {
                if b <= usize::MAX as u64 {
                    Some(b as usize)
                } else {
                    None
                }
            },
            None => None,
        },
        None => {
            proof {
                assert((y / 4) * w4 + x / 4 >= (y / 4) * w4);
            }
            None
        },
    }
}

/// The copy step of a paste along tile row `ty`, first `n` cells: tile cell
/// `(4j, ty)` lands on picture cell `(x0 + 4j, y0 + ty)` where both exist.
pub open spec fn paste_row(
    dst: Seq<bool>,
    src: Seq<bool>,
    sw4: int,
    dw4: int,
    x0: int,
    y0: int,
    ty: int,
    n: int,
) -> Seq<bool>
    decreases n,
{
    if n <= 0 {
        dst
    } else {
        let prev = paste_row(dst, src, sw4, dw4, x0, y0, ty, n - 1);
        let si = map_cell(sw4, 4 * (n - 1), ty);
        let di = map_cell(dw4, x0 + 4 * (n - 1), y0 + ty);
        if 0 <= si < src.len() && 0 <= di < prev.len() {
            prev.update(di, src[si])
        } else {
            prev
        }
    }
}

/// The copy step of a paste over the first `rows` tile rows, `cols` cells
/// each.
pub open spec fn paste_rows(
    dst: Seq<bool>,
    src: Seq<bool>,
    sw4: int,
    dw4: int,
    x0: int,
    y0: int,
    rows: int,
    cols: int,
) -> Seq<bool>
    decreases rows,
{
    if rows <= 0 {
        dst
    } else {
        paste_row(paste_rows(dst, src, sw4, dw4, x0, y0, rows - 1, cols), src, sw4, dw4, x0, y0, 4 * (rows - 1), cols)
    }
}

/// Marking the first `n` cells of a tile's own edge, starting at picture
/// cell `(x0, y0)` and stepping four samples down (`down`) or across.
pub open spec fn mark_tile_edge(dst: Seq<bool>, dw4: int, x0: int, y0: int, down: bool, n: int) -> Seq<bool>
    decreases n,
{
    if n <= 0 {
        dst
    } else {
        let prev = mark_tile_edge(dst, dw4, x0, y0, down, n - 1);
        let di = if down {
            map_cell(dw4, x0, y0 + 4 * (n - 1))
        } else {
            map_cell(dw4, x0 + 4 * (n - 1), y0)
        };
        if 0 <= di < prev.len() {
            prev.update(di, true)
        } else {
            prev
        }
    }
}

proof fn lemma_paste_row_len(dst: Seq<bool>, src: Seq<bool>, sw4: int, dw4: int, x0: int, y0: int, ty: int, n: int)
    ensures
        paste_row(dst, src, sw4, dw4, x0, y0, ty, n).len() == dst.len(),
    decreases n,
{
    if n > 0 {
        lemma_paste_row_len(dst, src, sw4, dw4, x0, y0, ty, n - 1);
    }
}

proof fn lemma_paste_rows_len(dst: Seq<bool>, src: Seq<bool>, sw4: int, dw4: int, x0: int, y0: int, rows: int, cols: int)
    ensures
        paste_rows(dst, src, sw4, dw4, x0, y0, rows, cols).len() == dst.len(),
    decreases rows,
{
    if rows > 0 {
        lemma_paste_rows_len(dst, src, sw4, dw4, x0, y0, rows - 1, cols);
        lemma_paste_row_len(paste_rows(dst, src, sw4, dw4, x0, y0, rows - 1, cols), src, sw4, dw4, x0, y0, 4 * (rows - 1), cols);
    }
}

proof fn lemma_mark_tile_edge_len(dst: Seq<bool>, dw4: int, x0: int, y0: int, down: bool, n: int)
    ensures
        mark_tile_edge(dst, dw4, x0, y0, down, n).len() == dst.len(),
    decreases n,
{
    if n > 0 {
        lemma_mark_tile_edge_len(dst, dw4, x0, y0, down, n - 1);
    }
}

/// Set cell `ci` to `v` where it exists; `i` is `ci` as an index, or `None`
/// where `ci` is past any map.
fn set_cell(cells: &mut Vec<bool>, i: Option<usize>, Ghost(ci): Ghost<int>, v: bool)
    requires
        i matches Some(k) ==> k == ci,
        i is None ==> ci > usize::MAX,
    ensures
        final(cells)@ == (if 0 <= ci < old(cells)@.len() {
            old(cells)@.update(ci, v)
        } else {
            old(cells)@
        }),
{
    let len = cells.len();
    if let Some(k) = i {
        if k < len {
            cells.set(k, v);
        }
    }
}

impl EdgeMap {
    /// No edges yet, over a `cw`×`ch` picture's grid of 4×4 cells.
    pub fn new(cw: u32, ch: u32) -> (m: Self)
        requires
            (cw / 4) * (ch / 4) <= usize::MAX,
        ensures
            m@.2 == cw / 4,
            m@.0.len() == m@.1.len(),
            m@.0 == Seq::new(((cw / 4) * (ch / 4)) as nat, |i: int| false),
            m@.1 == Seq::new(((cw / 4) * (ch / 4)) as nat, |i: int| false),
    {
        let w4 = (cw / 4) as usize;
        let h4 = (ch / 4) as usize;
        let n = w4 * h4;
        let left = vec![false; n];
        let top = vec![false; n];
        proof {
            assert(left@ =~= Seq::new(n as nat, |i: int| false));
            assert(top@ =~= Seq::new(n as nat, |i: int| false));
        }
        EdgeMap { left, top, w4 }
    }

    /// Copy another map's marks into this one at `(x0, y0)`, then mark the
    /// tile's own left and top edges where they lie inside the picture.
    ///
    /// Tiles are encoded as pictures of their own, so each builds an edge map
    /// in its own coordinates; the picture-level filter needs them in one, and
    /// a tile's borders are picture-internal block edges it could not know of.
    pub fn paste(&mut self, src: &EdgeMap, w: u32, h: u32, x0: u32, y0: u32)
        requires
            old(self)@.0.len() == old(self)@.1.len(),
            src@.0.len() == src@.1.len(),
        ensures
            final(self)@.2 == old(self)@.2,
            final(self)@.0 == ({
                let copied = paste_rows(
                    old(self)@.0,
                    src@.0,
                    src@.2 as int,
                    old(self)@.2 as int,
                    x0 as int,
                    y0 as int,
                    (h as int + 3) / 4,
                    (w as int + 3) / 4,
                );
                if x0 > 0 {
                    mark_tile_edge(copied, old(self)@.2 as int, x0 as int, y0 as int, true, (h as int + 3) / 4)
                } else {
                    copied
                }
            }),
            final(self)@.1 == ({
                let copied = paste_rows(
                    old(self)@.1,
                    src@.1,
                    src@.2 as int,
                    old(self)@.2 as int,
                    x0 as int,
                    y0 as int,
                    (h as int + 3) / 4,
                    (w as int + 3) / 4,
                );
                if y0 > 0 {
                    mark_tile_edge(copied, old(self)@.2 as int, x0 as int, y0 as int, false, (w as int + 3) / 4)
                } else {
                    copied
                }
            }),
    {
        let ghost l0 = self.left@;
        let ghost t0 = self.top@;
        let sw4 = src.w4 as u64;
        let dw4 = self.w4 as u64;
        let rows: u64 = (h as u64 + 3) / 4;
        let cols: u64 = (w as u64 + 3) / 4;
        let mut r: u64 = 0;
        while r < rows
            invariant
                rows == (h as int + 3) / 4,
                cols == (w as int + 3) / 4,
                sw4 == src@.2,
                dw4 == self.w4,
                dw4 == old(self)@.2,
                src@.0.len() == src@.1.len(),
                l0.len() == t0.len(),
                r <= rows,
                self.left@ == paste_rows(l0, src@.0, sw4 as int, dw4 as int, x0 as int, y0 as int, r as int, cols as int),
                self.top@ == paste_rows(t0, src@.1, sw4 as int, dw4 as int, x0 as int, y0 as int, r as int, cols as int),
            decreases rows - r,
        {
            let ghost lrow = self.left@;
            let ghost trow = self.top@;
            proof {
                lemma_paste_rows_len(l0, src@.0, sw4 as int, dw4 as int, x0 as int, y0 as int, r as int, cols as int);
                lemma_paste_rows_len(t0, src@.1, sw4 as int, dw4 as int, x0 as int, y0 as int, r as int, cols as int);
            }
            let ty = 4 * r;
            let mut c: u64 = 0;
            while c < cols
                invariant
                    cols == (w as int + 3) / 4,
                    sw4 == src@.2,
                    dw4 == self.w4,
                    src@.0.len() == src@.1.len(),
                    lrow.len() == trow.len(),
                    ty == 4 * r,
                    r < rows,
                    rows == (h as int + 3) / 4,
                    c <= cols,
                    self.left@ == paste_row(lrow, src@.0, sw4 as int, dw4 as int, x0 as int, y0 as int, ty as int, c as int),
                    self.top@ == paste_row(trow, src@.1, sw4 as int, dw4 as int, x0 as int, y0 as int, ty as int, c as int),
                decreases cols - c,
            {
                proof {
                    lemma_paste_row_len(lrow, src@.0, sw4 as int, dw4 as int, x0 as int, y0 as int, ty as int, c as int);
                    lemma_paste_row_len(trow, src@.1, sw4 as int, dw4 as int, x0 as int, y0 as int, ty as int, c as int);
                }
                let tx = 4 * c;
                let si = cell_index(ty, tx, sw4);
                let di = cell_index(y0 as u64 + ty, x0 as u64 + tx, dw4);
                let slen = src.left.len();
                let dlen = self.left.len();
                if let (Some(si), Some(di)) = (si, di) {
                    if si < slen && di < dlen {
                        let a = src.left[si];
                        let b = src.top[si];
                        self.left.set(di, a);
                        self.top.set(di, b);
                    }
                }
                c = c + 1;
            }
            r = r + 1;
        }
        let ghost l1 = self.left@;
        let ghost t1 = self.top@;
        proof {
            lemma_paste_rows_len(l0, src@.0, sw4 as int, dw4 as int, x0 as int, y0 as int, rows as int, cols as int);
            lemma_paste_rows_len(t0, src@.1, sw4 as int, dw4 as int, x0 as int, y0 as int, rows as int, cols as int);
        }
        if x0 > 0 {
            let mut r: u64 = 0;
            while r < rows
                invariant
                    rows == (h as int + 3) / 4,
                    dw4 == self.w4,
                    r <= rows,
                    self.top@ == t1,
                    self.left@ == mark_tile_edge(l1, dw4 as int, x0 as int, y0 as int, true, r as int),
                decreases rows - r,
            {
                proof {
                    lemma_mark_tile_edge_len(l1, dw4 as int, x0 as int, y0 as int, true, r as int);
                }
                let yy: u64 = y0 as u64 + 4 * r;
                let di = cell_index(yy, x0 as u64, dw4);
                let ghost ci = map_cell(dw4 as int, x0 as int, yy as int);
                set_cell(&mut self.left, di, Ghost(ci), true);
                r = r + 1;
            }
        }
        let ghost l2 = self.left@;
        if y0 > 0 {
            let mut c: u64 = 0;
            while c < cols
                invariant
                    cols == (w as int + 3) / 4,
                    dw4 == self.w4,
                    c <= cols,
                    self.left@ == l2,
                    self.top@ == mark_tile_edge(t1, dw4 as int, x0 as int, y0 as int, false, c as int),
                decreases cols - c,
            {
                proof {
                    lemma_mark_tile_edge_len(t1, dw4 as int, x0 as int, y0 as int, false, c as int);
                }
                let xx: u64 = x0 as u64 + 4 * c;
                let di = cell_index(y0 as u64, xx, dw4);
                let ghost ci = map_cell(dw4 as int, xx as int, y0 as int);
                set_cell(&mut self.top, di, Ghost(ci), true);
                c = c + 1;
            }
        }
    }

    /// Record the left and top edges of one transform block.
    pub fn mark(&mut self, x: u32, y: u32, size: u32)
        ensures
            final(self)@.2 == old(self)@.2,
            final(self)@.0.len() == old(self)@.0.len(),
            final(self)@.1.len() == old(self)@.1.len(),
            forall|i: int|
                0 <= i < old(self)@.0.len() ==> #[trigger] final(self)@.0[i] == (old(self)@.0[i]
                    || mark_sets_left(old(self)@.2 as int, x as int, y as int, size as int, i)),
            forall|i: int|
                0 <= i < old(self)@.1.len() ==> #[trigger] final(self)@.1[i] == (old(self)@.1[i]
                    || mark_sets_top(old(self)@.2 as int, x as int, y as int, size as int, i)),
    {
        let ghost l0 = self.left@;
        let ghost t0 = self.top@;
        let w4 = self.w4 as u64;
        let end: u64 = y as u64 + size as u64;
        if x % 8 == 0 && x > 0 {
            let mut r: u64 = y as u64;
            let mut k: Ghost<int> = Ghost(0);
            while r < end
                invariant
                    self.left@.len() == l0.len(),
                    self.top@ == t0,
                    self.w4 == w4,
                    end == y + size,
                    r == y + 4 * k@,
                    0 <= k@,
                    4 * k@ < size + 4,
                    forall|i: int|
                        0 <= i < l0.len() ==> #[trigger] self.left@[i] == (l0[i] || exists|k2: int|
                            0 <= k2 < k@ && 4 * k2 < size && #[trigger] left_cell(w4 as int, x as int, y as int, k2) == i),
                decreases end + 4 - r,
            {
                let i = cell_index(r, x as u64, w4);
                let ghost ci = left_cell(w4 as int, x as int, y as int, k@);
                proof {
                    assert(r / 4 == (y + 4 * k@) / 4);
                    assert(map_cell(w4 as int, x as int, r as int) == ci);
                }
                let ghost before = self.left@;
                let len_now = self.left.len();
                if let Some(i) = i {
                    if i < len_now {
                        self.left.set(i, true);
                    }
                }
                proof {
                    assert forall|j: int| 0 <= j < l0.len() implies #[trigger] self.left@[j] == (l0[j] || exists|k2: int|
                        0 <= k2 < k@ + 1 && 4 * k2 < size && #[trigger] left_cell(w4 as int, x as int, y as int, k2) == j) by {
                        if j == ci {
                            assert(4 * k@ < size);
                            assert(left_cell(w4 as int, x as int, y as int, k@) == j);
                            assert(self.left@[j]);
                        } else {
                            assert(self.left@[j] == before[j]);
                            assert(before[j] == (l0[j] || exists|k2: int|
                                0 <= k2 < k@ && 4 * k2 < size && #[trigger] left_cell(w4 as int, x as int, y as int, k2) == j));
                            if exists|k2: int| 0 <= k2 < k@ + 1 && 4 * k2 < size && #[trigger] left_cell(w4 as int, x as int, y as int, k2) == j {
                                let k2 = choose|k2: int| 0 <= k2 < k@ + 1 && 4 * k2 < size && #[trigger] left_cell(w4 as int, x as int, y as int, k2) == j;
                                assert(k2 < k@);
                            }
                            if exists|k2: int| 0 <= k2 < k@ && 4 * k2 < size && #[trigger] left_cell(w4 as int, x as int, y as int, k2) == j {
                                let k2 = choose|k2: int| 0 <= k2 < k@ && 4 * k2 < size && #[trigger] left_cell(w4 as int, x as int, y as int, k2) == j;
                                assert(0 <= k2 < k@ + 1);
                            }
                        }
                    }
                }
                r = r + 4;
                k = Ghost(k@ + 1);
            }
            proof {
                assert forall|i: int| 0 <= i < l0.len() implies #[trigger] self.left@[i] == (l0[i]
                    || mark_sets_left(w4 as int, x as int, y as int, size as int, i)) by {
                    if mark_sets_left(w4 as int, x as int, y as int, size as int, i) {
                        let k2 = choose|k2: int| 0 <= k2 && 4 * k2 < size && #[trigger] left_cell(w4 as int, x as int, y as int, k2) == i;
                        assert(k2 < k@);
                    }
                }
            }
        }
        let ghost l1 = self.left@;
        if y % 8 == 0 && y > 0 {
            let end2: u64 = x as u64 + size as u64;
            let mut c: u64 = x as u64;
            let mut k: Ghost<int> = Ghost(0);
            while c < end2
                invariant
                    self.top@.len() == t0.len(),
                    self.left@ == l1,
                    self.w4 == w4,
                    end2 == x + size,
                    c == x + 4 * k@,
                    0 <= k@,
                    4 * k@ < size + 4,
                    forall|i: int|
                        0 <= i < t0.len() ==> #[trigger] self.top@[i] == (t0[i] || exists|k2: int|
                            0 <= k2 < k@ && 4 * k2 < size && #[trigger] top_cell(w4 as int, x as int, y as int, k2) == i),
                decreases end2 + 4 - c,
            {
                let i = cell_index(y as u64, c, w4);
                let ghost ci = top_cell(w4 as int, x as int, y as int, k@);
                proof {
                    assert(map_cell(w4 as int, c as int, y as int) == ci);
                }
                let ghost before = self.top@;
                let len_now = self.top.len();
                if let Some(i) = i {
                    if i < len_now {
                        self.top.set(i, true);
                    }
                }
                proof {
                    assert forall|j: int| 0 <= j < t0.len() implies #[trigger] self.top@[j] == (t0[j] || exists|k2: int|
                        0 <= k2 < k@ + 1 && 4 * k2 < size && #[trigger] top_cell(w4 as int, x as int, y as int, k2) == j) by {
                        if j == ci {
                            assert(4 * k@ < size);
                            assert(top_cell(w4 as int, x as int, y as int, k@) == j);
                            assert(self.top@[j]);
                        } else {
                            assert(self.top@[j] == before[j]);
                            assert(before[j] == (t0[j] || exists|k2: int|
                                0 <= k2 < k@ && 4 * k2 < size && #[trigger] top_cell(w4 as int, x as int, y as int, k2) == j));
                            if exists|k2: int| 0 <= k2 < k@ + 1 && 4 * k2 < size && #[trigger] top_cell(w4 as int, x as int, y as int, k2) == j {
                                let k2 = choose|k2: int| 0 <= k2 < k@ + 1 && 4 * k2 < size && #[trigger] top_cell(w4 as int, x as int, y as int, k2) == j;
                                assert(k2 < k@);
                            }
                            if exists|k2: int| 0 <= k2 < k@ && 4 * k2 < size && #[trigger] top_cell(w4 as int, x as int, y as int, k2) == j {
                                let k2 = choose|k2: int| 0 <= k2 < k@ && 4 * k2 < size && #[trigger] top_cell(w4 as int, x as int, y as int, k2) == j;
                                assert(0 <= k2 < k@ + 1);
                            }
                        }
                    }
                }
                c = c + 4;
                k = Ghost(k@ + 1);
            }
            proof {
                assert forall|i: int| 0 <= i < t0.len() implies #[trigger] self.top@[i] == (t0[i]
                    || mark_sets_top(w4 as int, x as int, y as int, size as int, i)) by {
                    if mark_sets_top(w4 as int, x as int, y as int, size as int, i) {
                        let k2 = choose|k2: int| 0 <= k2 && 4 * k2 < size && #[trigger] top_cell(w4 as int, x as int, y as int, k2) == i;
                        assert(k2 < k@);
                    }
                }
            }
        }
    }
}

/// Whether the edge at sample `(x, y)` is marked in `cells`, a grid `w4`
/// cells wide.
pub open spec fn edge_at(cells: Seq<bool>, w4: int, x: int, y: int) -> bool {
    0 <= map_cell(w4, x, y) < cells.len() && cells[map_cell(w4, x, y)]
}

impl EdgeMap {
    /// Whether the left edge of the cell holding `(x, y)` is marked.
    pub fn has_left(&self, x: u32, y: u32) -> (b: bool)
        ensures
            b == edge_at(self@.0, self@.2 as int, x as int, y as int),
    {
        let len = self.left.len();
        match cell_index(y as u64, x as u64, self.w4 as u64) {
            Some(i) => i < len && self.left[i],
            None => false,
        }
    }

    /// Whether the top edge of the cell holding `(x, y)` is marked.
    pub fn has_top(&self, x: u32, y: u32) -> (b: bool)
        ensures
            b == edge_at(self@.1, self@.2 as int, x as int, y as int),
    {
        let len = self.top.len();
        match cell_index(y as u64, x as u64, self.w4 as u64) {
            Some(i) => i < len && self.top[i],
            None => false,
        }
    }
}

/// A sample value clipped to 8 bits.
pub open spec fn clip1(v: int) -> u8 {
    clamp(v, 0, 255) as u8
}

/// Sample `i` across the edge on line `line` of a segment whose first `q0`
/// is at `base`; negative `i` reaches the `p` side.
pub open spec fn seg_tap(p: Seq<u8>, base: int, step: int, along: int, line: int, i: int) -> int {
    p[base + line * along + i * step] as int
}

/// `β` for a quantizer (Table 8-12).
pub open spec fn beta_of(qp: int) -> int {
    BETA[clamp(qp, 0, 51)] as int
}

/// `tC` for a quantizer at boundary strength 2, which shifts the lookup two
/// places along (Table 8-12).
pub open spec fn tc_of(qp: int) -> int {
    TC[clamp(qp + 2, 0, 53)] as int
}

/// The second difference on the `p` side of a line.
pub open spec fn d2p(p: Seq<u8>, base: int, step: int, along: int, line: int) -> int {
    abs(seg_tap(p, base, step, along, line, -3) - 2 * seg_tap(p, base, step, along, line, -2) + seg_tap(
        p,
        base,
        step,
        along,
        line,
        -1,
    ))
}

/// The second difference on the `q` side of a line.
pub open spec fn d2q(p: Seq<u8>, base: int, step: int, along: int, line: int) -> int {
    abs(seg_tap(p, base, step, along, line, 2) - 2 * seg_tap(p, base, step, along, line, 1) + seg_tap(
        p,
        base,
        step,
        along,
        line,
        0,
    ))
}

/// The strong-filter test on one of the segment's end lines (§8.7.2.5.6).
pub open spec fn strong_line(p: Seq<u8>, base: int, step: int, along: int, line: int, dpq: int, beta: int, tc: int) -> bool {
    let p0 = seg_tap(p, base, step, along, line, -1);
    let p3 = seg_tap(p, base, step, along, line, -4);
    let q0 = seg_tap(p, base, step, along, line, 0);
    let q3 = seg_tap(p, base, step, along, line, 3);
    2 * dpq < beta / 4 && abs(p3 - p0) + abs(q0 - q3) < beta / 8 && abs(p0 - q0) < (5 * tc + 1) / 2
}

/// One line of the strong luma filter: three samples a side, each held
/// within `±2tC` of where it started.
pub open spec fn strong_luma_line(p: Seq<u8>, o: int, step: int, tc: int) -> Seq<u8> {
    let p0 = p[o - step] as int;
    let p1 = p[o - 2 * step] as int;
    let p2 = p[o - 3 * step] as int;
    let p3 = p[o - 4 * step] as int;
    let q0 = p[o] as int;
    let q1 = p[o + step] as int;
    let q2 = p[o + 2 * step] as int;
    let q3 = p[o + 3 * step] as int;
    p.update(o - step, clip1(clamp((p2 + 2 * p1 + 2 * p0 + 2 * q0 + q1 + 4) / 8, p0 - 2 * tc, p0 + 2 * tc))).update(
        o - 2 * step,
        clip1(clamp((p2 + p1 + p0 + q0 + 2) / 4, p1 - 2 * tc, p1 + 2 * tc)),
    ).update(o - 3 * step, clip1(clamp((2 * p3 + 3 * p2 + p1 + p0 + q0 + 4) / 8, p2 - 2 * tc, p2 + 2 * tc))).update(
        o,
        clip1(clamp((p1 + 2 * p0 + 2 * q0 + 2 * q1 + q2 + 4) / 8, q0 - 2 * tc, q0 + 2 * tc)),
    ).update(o + step, clip1(clamp((p0 + q0 + q1 + q2 + 2) / 4, q1 - 2 * tc, q1 + 2 * tc))).update(
        o + 2 * step,
        clip1(clamp((p0 + q0 + q1 + 3 * q2 + 2 * q3 + 4) / 8, q2 - 2 * tc, q2 + 2 * tc)),
    )
}

/// One line of the normal luma filter: nothing where the step is ten times
/// `tC` or more (real structure); otherwise the edge samples move by the
/// clipped `Δ`, and `p1` / `q1` too where that side is smooth (`ep`, `eq`).
pub open spec fn weak_luma_line(p: Seq<u8>, o: int, step: int, tc: int, ep: bool, eq: bool) -> Seq<u8> {
    let p0 = p[o - step] as int;
    let p1 = p[o - 2 * step] as int;
    let p2 = p[o - 3 * step] as int;
    let q0 = p[o] as int;
    let q1 = p[o + step] as int;
    let q2 = p[o + 2 * step] as int;
    let delta = (9 * (q0 - p0) - 3 * (q1 - p1) + 8) / 16;
    if abs(delta) >= tc * 10 {
        p
    } else {
        let d = clamp(delta, -tc, tc);
        let s1 = p.update(o - step, clip1(p0 + d)).update(o, clip1(q0 - d));
        let s2 = if ep {
            s1.update(o - 2 * step, clip1(p1 + clamp(((p2 + p0 + 1) / 2 - p1 + d) / 2, -(tc / 2), tc / 2)))
        } else {
            s1
        };
        if eq {
            s2.update(o + step, clip1(q1 + clamp(((q2 + q0 + 1) / 2 - q1 - d) / 2, -(tc / 2), tc / 2)))
        } else {
            s2
        }
    }
}

/// Lines `0..n` of a luma segment, with the decisions taken for the whole
/// segment.
pub open spec fn luma_lines(
    p: Seq<u8>,
    base: int,
    step: int,
    along: int,
    n: int,
    strong: bool,
    ep: bool,
    eq: bool,
    tc: int,
) -> Seq<u8>
    decreases n,
{
    if n <= 0 {
        p
    } else {
        let prev = luma_lines(p, base, step, along, n - 1, strong, ep, eq, tc);
        let o = base + (n - 1) * along;
        if strong {
            strong_luma_line(prev, o, step, tc)
        } else {
            weak_luma_line(prev, o, step, tc, ep, eq)
        }
    }
}

/// One four-line segment of a luma edge (§8.7.2.5.3, §8.7.2.5.7) whose first
/// `q0` is at `(x, y)` in a plane `w` wide. The whole segment is judged on
/// its first and last lines: left alone where `β` is zero or the sides are
/// not smooth, filtered strongly where both end lines pass the strong test.
pub open spec fn luma_segment(p: Seq<u8>, w: int, x: int, y: int, step: int, along: int, qp: int) -> Seq<u8> {
    let beta = beta_of(qp);
    let tc = tc_of(qp);
    let base = y * w + x;
    let dp0 = d2p(p, base, step, along, 0);
    let dq0 = d2q(p, base, step, along, 0);
    let dp3 = d2p(p, base, step, along, 3);
    let dq3 = d2q(p, base, step, along, 3);
    if beta == 0 || dp0 + dq0 + dp3 + dq3 >= beta {
        p
    } else {
        let strong = strong_line(p, base, step, along, 0, dp0 + dq0, beta, tc) && strong_line(
            p,
            base,
            step,
            along,
            3,
            dp3 + dq3,
            beta,
            tc,
        );
        let ep = dp0 + dp3 < (beta + beta / 2) / 8;
        let eq = dq0 + dq3 < (beta + beta / 2) / 8;
        luma_lines(p, base, step, along, 4, strong, ep, eq, tc)
    }
}

/// One line of the chroma filter: the two samples at the edge move by the
/// clipped `Δ`.
pub open spec fn chroma_line(p: Seq<u8>, o: int, step: int, tc: int) -> Seq<u8> {
    let p0 = p[o - step] as int;
    let p1 = p[o - 2 * step] as int;
    let q0 = p[o] as int;
    let q1 = p[o + step] as int;
    let d = clamp((4 * (q0 - p0) + p1 - q1 + 4) / 8, -tc, tc);
    p.update(o - step, clip1(p0 + d)).update(o, clip1(q0 - d))
}

/// Lines `0..n` of a chroma segment.
pub open spec fn chroma_lines(p: Seq<u8>, base: int, step: int, along: int, n: int, tc: int) -> Seq<u8>
    decreases n,
{
    if n <= 0 {
        p
    } else {
        chroma_line(chroma_lines(p, base, step, along, n - 1, tc), base + (n - 1) * along, step, tc)
    }
}

/// One four-line segment of a chroma edge (§8.7.2.5.5): never the strong
/// filter, never more than one sample a side; nothing where `tC` is zero.
pub open spec fn chroma_segment(p: Seq<u8>, w: int, x: int, y: int, step: int, along: int, qpc: int) -> Seq<u8> {
    let tc = tc_of(qpc);
    if tc == 0 {
        p
    } else {
        chroma_lines(p, y * w + x, step, along, 4, tc)
    }
}

/// Table ranges the filter arithmetic relies on.
proof fn lemma_tables(qp: int)
    ensures
        0 <= beta_of(qp) <= 64,
        0 <= tc_of(qp) <= 24,
{
}

/// `|v|` for a small difference.
fn abs_i32(v: i32) -> (r: i32)
    requires
        v > i32::MIN,
    ensures
        r == abs(v as int),
{
    if v < 0 {
        -v
    } else {
        v
    }
}

/// A sample value clipped to 8 bits.
fn clip1_at(v: i32) -> (r: u8)
    ensures
        r == clip1(v as int),
{
    crate::num::clip_u8(v)
}

/// The strong luma filter on the line whose `q0` is at `o`, in place.
fn strong_luma_line_at(plane: &mut [u8], o: usize, step: usize, tc: i32)
    requires
        step >= 1,
        o >= 4 * step,
        o + 3 * step < old(plane)@.len(),
        0 <= tc <= 24,
    ensures
        final(plane)@ == strong_luma_line(old(plane)@, o as int, step as int, tc as int),
        final(plane)@.len() == old(plane)@.len(),
{
    let ghost s = plane@;
    let len = plane.len();
    assert(o + 3 * step < len);
    proof {
        vstd::arithmetic::power2::lemma2_to64();
    }
    let (a1, a2, a3) = (o - step, o - 2 * step, o - 3 * step);
    let (b1, b2) = (o + step, o + 2 * step);
    let p0 = plane[a1] as i32;
    let p1 = plane[a2] as i32;
    let p2 = plane[a3] as i32;
    let p3 = plane[o - 4 * step] as i32;
    let q0 = plane[o] as i32;
    let q1 = plane[b1] as i32;
    let q2 = plane[b2] as i32;
    let q3 = plane[o + 3 * step] as i32;
    let t2 = 2 * tc;
    let np0 = clip1_at(crate::num::clamp_i32(crate::num::shr_floor(p2 + 2 * p1 + 2 * p0 + 2 * q0 + q1 + 4, 3), p0 - t2, p0 + t2));
    let np1 = clip1_at(crate::num::clamp_i32(crate::num::shr_floor(p2 + p1 + p0 + q0 + 2, 2), p1 - t2, p1 + t2));
    let np2 = clip1_at(crate::num::clamp_i32(crate::num::shr_floor(2 * p3 + 3 * p2 + p1 + p0 + q0 + 4, 3), p2 - t2, p2 + t2));
    let nq0 = clip1_at(crate::num::clamp_i32(crate::num::shr_floor(p1 + 2 * p0 + 2 * q0 + 2 * q1 + q2 + 4, 3), q0 - t2, q0 + t2));
    let nq1 = clip1_at(crate::num::clamp_i32(crate::num::shr_floor(p0 + q0 + q1 + q2 + 2, 2), q1 - t2, q1 + t2));
    let nq2 = clip1_at(crate::num::clamp_i32(crate::num::shr_floor(p0 + q0 + q1 + 3 * q2 + 2 * q3 + 4, 3), q2 - t2, q2 + t2));
    plane[a1] = np0;
    plane[a2] = np1;
    plane[a3] = np2;
    plane[o] = nq0;
    plane[b1] = nq1;
    plane[b2] = nq2;
    proof {
        assert(plane@ =~= strong_luma_line(s, o as int, step as int, tc as int));
    }
}

/// The normal luma filter on the line whose `q0` is at `o`, in place.
fn weak_luma_line_at(plane: &mut [u8], o: usize, step: usize, tc: i32, ep: bool, eq: bool)
    requires
        step >= 1,
        o >= 4 * step,
        o + 3 * step < old(plane)@.len(),
        0 <= tc <= 24,
    ensures
        final(plane)@ == weak_luma_line(old(plane)@, o as int, step as int, tc as int, ep, eq),
        final(plane)@.len() == old(plane)@.len(),
{
    let ghost s = plane@;
    let len = plane.len();
    assert(o + 3 * step < len);
    proof {
        vstd::arithmetic::power2::lemma2_to64();
    }
    let (a1, a2, a3) = (o - step, o - 2 * step, o - 3 * step);
    let b1 = o + step;
    let p0 = plane[a1] as i32;
    let p1 = plane[a2] as i32;
    let p2 = plane[a3] as i32;
    let q0 = plane[o] as i32;
    let q1 = plane[b1] as i32;
    let q2 = plane[o + 2 * step] as i32;
    let delta = crate::num::shr_floor(9 * (q0 - p0) - 3 * (q1 - p1) + 8, 4);
    if abs_i32(delta) >= tc * 10 {
        return;
    }
    let d = crate::num::clamp_i32(delta, -tc, tc);
    plane[a1] = clip1_at(p0 + d);
    plane[o] = clip1_at(q0 - d);
    let ghost s1 = plane@;
    let half = tc / 2;
    if ep {
        let dp = crate::num::clamp_i32(crate::num::shr_floor(crate::num::shr_floor(p2 + p0 + 1, 1) - p1 + d, 1), -half, half);
        plane[a2] = clip1_at(p1 + dp);
    }
    let ghost s2 = plane@;
    if eq {
        let dq = crate::num::clamp_i32(crate::num::shr_floor(crate::num::shr_floor(q2 + q0 + 1, 1) - q1 - d, 1), -half, half);
        plane[b1] = clip1_at(q1 + dq);
    }
    proof {
        assert(plane@ =~= weak_luma_line(s, o as int, step as int, tc as int, ep, eq));
    }
}

/// The lines of a luma segment, in place, with the decisions taken.
#[verifier::spinoff_prover]
#[verifier::rlimit(40)]
fn luma_lines_at(plane: &mut [u8], base: usize, step: usize, along: usize, strong: bool, ep: bool, eq: bool, tc: i32)
    requires
        step >= 1,
        base >= 4 * step,
        base + 3 * along + 3 * step < old(plane)@.len(),
        0 <= tc <= 24,
    ensures
        final(plane)@ == luma_lines(old(plane)@, base as int, step as int, along as int, 4, strong, ep, eq, tc as int),
        final(plane)@.len() == old(plane)@.len(),
{
    let ghost s = plane@;
    let len = plane.len();
    let mut line: usize = 0;
    while line < 4
        invariant
            line <= 4,
            step >= 1,
            base >= 4 * step,
            base + 3 * along + 3 * step < s.len(),
            len == s.len(),
            0 <= tc <= 24,
            plane@.len() == s.len(),
            plane@ == luma_lines(s, base as int, step as int, along as int, line as int, strong, ep, eq, tc as int),
        decreases 4 - line,
    {
        assert(line * along <= 3 * along) by (nonlinear_arith)
            requires
                line < 4,
        ;
        let o = base + line * along;
        let ghost prev = plane@;
        if strong {
            strong_luma_line_at(plane, o, step, tc);
        } else {
            weak_luma_line_at(plane, o, step, tc, ep, eq);
        }
        proof {
            assert(luma_lines(s, base as int, step as int, along as int, line + 1, strong, ep, eq, tc as int)
                == (if strong {
                strong_luma_line(prev, o as int, step as int, tc as int)
            } else {
                weak_luma_line(prev, o as int, step as int, tc as int, ep, eq)
            }));
        }
        line = line + 1;
    }
}

/// The second differences either side of the edge on the line whose `q0` is
/// at `o`.
fn second_diffs(plane: &[u8], o: usize, step: usize) -> (r: (i32, i32))
    requires
        step >= 1,
        o >= 4 * step,
        o + 3 * step < plane@.len(),
    ensures
        r.0 == abs(plane@[o - 3 * step] as int - 2 * plane@[o - 2 * step] as int + plane@[o - step] as int),
        r.1 == abs(plane@[o + 2 * step] as int - 2 * plane@[o + step] as int + plane@[o as int] as int),
        0 <= r.0 <= 510,
        0 <= r.1 <= 510,
{
    let dp = abs_i32(plane[o - 3 * step] as i32 - 2 * plane[o - 2 * step] as i32 + plane[o - step] as i32);
    let dq = abs_i32(plane[o + 2 * step] as i32 - 2 * plane[o + step] as i32 + plane[o] as i32);
    (dp, dq)
}

/// One four-line segment of a luma edge, in place.
fn luma_segment_at(plane: &mut [u8], w: usize, x: usize, y: usize, step: usize, along: usize, qp: i32)
    requires
        step >= 1,
        y * w + x >= 4 * step,
        y * w + x + 3 * along + 3 * step < old(plane)@.len(),
    ensures
        final(plane)@ == luma_segment(old(plane)@, w as int, x as int, y as int, step as int, along as int, qp as int),
        final(plane)@.len() == old(plane)@.len(),
{
    let ghost s = plane@;
    let len = plane.len();
    proof {
        lemma_tables(qp as int);
    }
    let bi: usize = if qp < 0 {
        0
    } else if qp > 51 {
        51
    } else {
        qp as usize
    };
    let q2 = qp as i64 + 2;
    let ti: usize = if q2 < 0 {
        0
    } else if q2 > 53 {
        53
    } else {
        q2 as usize
    };
    let beta = BETA[bi];
    let tc = TC[ti];
    if beta == 0 {
        return;
    }
    let base = y * w + x;
    let o3 = base + 3 * along;
    let (dp0, dq0) = second_diffs(plane, base, step);
    let (dp3, dq3) = second_diffs(plane, o3, step);
    proof {
        assert(dp0 == d2p(s, base as int, step as int, along as int, 0));
        assert(dq0 == d2q(s, base as int, step as int, along as int, 0));
        assert(dp3 == d2p(s, base as int, step as int, along as int, 3));
        assert(dq3 == d2q(s, base as int, step as int, along as int, 3));
    }
    let (dpq0, dpq3) = (dp0 + dq0, dp3 + dq3);
    let (dp, dq) = (dp0 + dp3, dq0 + dq3);
    if dpq0 + dpq3 >= beta {
        return;
    }
    let s0 = strong_line_at(plane, base, step, dpq0, beta, tc);
    let s3 = strong_line_at(plane, o3, step, dpq3, beta, tc);
    proof {
        assert(s0 == strong_line(s, base as int, step as int, along as int, 0, dpq0 as int, beta as int, tc as int));
        assert(s3 == strong_line(s, base as int, step as int, along as int, 3, dpq3 as int, beta as int, tc as int));
    }
    let strong = s0 && s3;
    let ep = dp < (beta + beta / 2) / 8;
    let eq = dq < (beta + beta / 2) / 8;
    luma_lines_at(plane, base, step, along, strong, ep, eq, tc);
}

/// The strong-filter test on the line whose `q0` is at `o`.
fn strong_line_at(plane: &[u8], o: usize, step: usize, dpq: i32, beta: i32, tc: i32) -> (b: bool)
    requires
        step >= 1,
        o >= 4 * step,
        o + 3 * step < plane@.len(),
        0 <= dpq <= 2000,
        0 <= beta <= 64,
        0 <= tc <= 24,
    ensures
        b == ({
            let p0 = plane@[o - step] as int;
            let p3 = plane@[o - 4 * step] as int;
            let q0 = plane@[o as int] as int;
            let q3 = plane@[o + 3 * step] as int;
            2 * dpq < beta / 4 && abs(p3 - p0) + abs(q0 - q3) < beta / 8 && abs(p0 - q0) < (5 * tc + 1) / 2
        }),
{
    let p0 = plane[o - step] as i32;
    let p3 = plane[o - 4 * step] as i32;
    let q0 = plane[o] as i32;
    let q3 = plane[o + 3 * step] as i32;
    2 * dpq < beta / 4 && abs_i32(p3 - p0) + abs_i32(q0 - q3) < beta / 8 && abs_i32(p0 - q0) < (5 * tc
        + 1) / 2
}

/// The chroma filter on the line whose `q0` is at `o`, in place.
fn chroma_line_at(plane: &mut [u8], o: usize, step: usize, tc: i32)
    requires
        step >= 1,
        o >= 2 * step,
        o + step < old(plane)@.len(),
        0 <= tc <= 24,
    ensures
        final(plane)@ == chroma_line(old(plane)@, o as int, step as int, tc as int),
        final(plane)@.len() == old(plane)@.len(),
{
    let ghost s = plane@;
    let len = plane.len();
    proof {
        vstd::arithmetic::power2::lemma2_to64();
    }
    let a1 = o - step;
    let p0 = plane[a1] as i32;
    let p1 = plane[o - 2 * step] as i32;
    let q0 = plane[o] as i32;
    let q1 = plane[o + step] as i32;
    let d = crate::num::clamp_i32(crate::num::shr_floor((q0 - p0) * 4 + p1 - q1 + 4, 3), -tc, tc);
    plane[a1] = clip1_at(p0 + d);
    plane[o] = clip1_at(q0 - d);
    proof {
        assert(plane@ =~= chroma_line(s, o as int, step as int, tc as int));
    }
}

/// One four-line segment of a chroma edge, in place.
fn chroma_segment_at(plane: &mut [u8], w: usize, x: usize, y: usize, step: usize, along: usize, qpc: i32)
    requires
        step >= 1,
        y * w + x >= 2 * step,
        y * w + x + 3 * along + step < old(plane)@.len(),
    ensures
        final(plane)@ == chroma_segment(old(plane)@, w as int, x as int, y as int, step as int, along as int, qpc as int),
        final(plane)@.len() == old(plane)@.len(),
{
    let ghost s = plane@;
    let len = plane.len();
    proof {
        lemma_tables(qpc as int);
    }
    let q2 = qpc as i64 + 2;
    let ti: usize = if q2 < 0 {
        0
    } else if q2 > 53 {
        53
    } else {
        q2 as usize
    };
    let tc = TC[ti];
    if tc == 0 {
        return;
    }
    let base = y * w + x;
    let mut line: usize = 0;
    while line < 4
        invariant
            line <= 4,
            step >= 1,
            base >= 2 * step,
            base + 3 * along + step < s.len(),
            len == s.len(),
            0 <= tc <= 24,
            plane@.len() == s.len(),
            plane@ == chroma_lines(s, base as int, step as int, along as int, line as int, tc as int),
        decreases 4 - line,
    {
        assert(line * along <= 3 * along) by (nonlinear_arith)
            requires
                line < 4,
        ;
        let o = base + line * along;
        chroma_line_at(plane, o, step, tc);
        line = line + 1;
    }
}

/// The vertical luma edges on column `x`, first `n` four-line segments
/// (rows `0, 4, ..`): each filtered where its left edge is marked, at the
/// quantizer `q` holds for its cell.
pub open spec fn luma_v_column(p: Seq<u8>, cw: int, cells: Seq<bool>, w4: int, q: Seq<i32>, x: int, n: int) -> Seq<u8>
    decreases n,
{
    if n <= 0 {
        p
    } else {
        let prev = luma_v_column(p, cw, cells, w4, q, x, n - 1);
        let y = 4 * (n - 1);
        if edge_at(cells, w4, x, y) {
            luma_segment(prev, cw, x, y, 1, cw, q[map_cell(w4, x, y)] as int)
        } else {
            prev
        }
    }
}

/// The vertical luma pass over edge columns `x = 8, 16, ..`, the first
/// `cols` of them, each down the whole picture (`rows` segments).
pub open spec fn luma_v_pass(p: Seq<u8>, cw: int, rows: int, cells: Seq<bool>, w4: int, q: Seq<i32>, cols: int) -> Seq<u8>
    decreases cols,
{
    if cols <= 0 {
        p
    } else {
        luma_v_column(luma_v_pass(p, cw, rows, cells, w4, q, cols - 1), cw, cells, w4, q, 8 * cols, rows)
    }
}

/// The horizontal luma edges on row `y`, first `n` four-sample segments
/// (columns `0, 4, ..`).
pub open spec fn luma_h_row(p: Seq<u8>, cw: int, cells: Seq<bool>, w4: int, q: Seq<i32>, y: int, n: int) -> Seq<u8>
    decreases n,
{
    if n <= 0 {
        p
    } else {
        let prev = luma_h_row(p, cw, cells, w4, q, y, n - 1);
        let x = 4 * (n - 1);
        if edge_at(cells, w4, x, y) {
            luma_segment(prev, cw, x, y, cw, 1, q[map_cell(w4, x, y)] as int)
        } else {
            prev
        }
    }
}

/// The horizontal luma pass over edge rows `y = 8, 16, ..`, the first `rows`
/// of them, each across the whole picture (`cols` segments).
pub open spec fn luma_h_pass(p: Seq<u8>, cw: int, cols: int, cells: Seq<bool>, w4: int, q: Seq<i32>, rows: int) -> Seq<u8>
    decreases rows,
{
    if rows <= 0 {
        p
    } else {
        luma_h_row(luma_h_pass(p, cw, cols, cells, w4, q, rows - 1), cw, cells, w4, q, 8 * rows, cols)
    }
}

/// The vertical chroma edges on chroma column `x`, first `n` segments; an
/// edge exists where the luma edge it sits on (at twice the coordinates) is
/// marked.
pub open spec fn chroma_v_column(p: Seq<u8>, cwc: int, cells: Seq<bool>, w4: int, q: Seq<i32>, x: int, n: int) -> Seq<u8>
    decreases n,
{
    if n <= 0 {
        p
    } else {
        let prev = chroma_v_column(p, cwc, cells, w4, q, x, n - 1);
        let y = 4 * (n - 1);
        if edge_at(cells, w4, 2 * x, 2 * y) {
            chroma_segment(prev, cwc, x, y, 1, cwc, q[map_cell(w4, 2 * x, 2 * y)] as int)
        } else {
            prev
        }
    }
}

/// The vertical chroma pass over chroma columns `8, 16, ..`, the first `cols`.
pub open spec fn chroma_v_pass(p: Seq<u8>, cwc: int, rows: int, cells: Seq<bool>, w4: int, q: Seq<i32>, cols: int) -> Seq<u8>
    decreases cols,
{
    if cols <= 0 {
        p
    } else {
        chroma_v_column(chroma_v_pass(p, cwc, rows, cells, w4, q, cols - 1), cwc, cells, w4, q, 8 * cols, rows)
    }
}

/// The horizontal chroma edges on chroma row `y`, first `n` segments.
pub open spec fn chroma_h_row(p: Seq<u8>, cwc: int, cells: Seq<bool>, w4: int, q: Seq<i32>, y: int, n: int) -> Seq<u8>
    decreases n,
{
    if n <= 0 {
        p
    } else {
        let prev = chroma_h_row(p, cwc, cells, w4, q, y, n - 1);
        let x = 4 * (n - 1);
        if edge_at(cells, w4, 2 * x, 2 * y) {
            chroma_segment(prev, cwc, x, y, cwc, 1, q[map_cell(w4, 2 * x, 2 * y)] as int)
        } else {
            prev
        }
    }
}

/// The horizontal chroma pass over chroma rows `8, 16, ..`, the first `rows`.
pub open spec fn chroma_h_pass(p: Seq<u8>, cwc: int, cols: int, cells: Seq<bool>, w4: int, q: Seq<i32>, rows: int) -> Seq<u8>
    decreases rows,
{
    if rows <= 0 {
        p
    } else {
        chroma_h_row(chroma_h_pass(p, cwc, cols, cells, w4, q, rows - 1), cwc, cells, w4, q, 8 * rows, cols)
    }
}

/// A point `(x, y)` whose reach `(x + rx, y + ry)` stays inside a `w`×`h`
/// plane.
proof fn lemma_in_plane(w: int, h: int, x: int, y: int, rx: int, ry: int)
    requires
        0 <= x,
        0 <= rx,
        x + rx < w,
        0 <= y,
        0 <= ry,
        y + ry < h,
    ensures
        0 <= y * w,
        y * w + ry * w + x + rx < w * h,
        y >= 4 ==> y * w >= 4 * w,
        y >= 2 ==> y * w >= 2 * w,
{
    assert(0 <= y * w) by (nonlinear_arith)
        requires
            0 <= y,
            0 <= w,
    ;
    assert(y * w + ry * w == (y + ry) * w) by (nonlinear_arith);
    assert((y + ry) * w <= (h - 1) * w) by (nonlinear_arith)
        requires
            y + ry <= h - 1,
            w >= 0,
    ;
    assert((h - 1) * w + w == w * h) by (nonlinear_arith);
    assert(y >= 4 ==> y * w >= 4 * w) by (nonlinear_arith)
        requires
            w >= 0,
    ;
    assert(y >= 2 ==> y * w >= 2 * w) by (nonlinear_arith)
        requires
            w >= 0,
    ;
}

/// The cell of `(x, y)` as an index, for a point inside the map.
fn cell_at(x: usize, y: usize, w4: usize, Ghost(n): Ghost<int>) -> (i: usize)
    requires
        0 <= map_cell(w4 as int, x as int, y as int) < n,
        n <= usize::MAX,
    ensures
        i == map_cell(w4 as int, x as int, y as int),
{
    assert((y / 4) * w4 <= (y / 4) * w4 + x / 4);
    (y / 4) * w4 + x / 4
}

/// The vertical luma pass, in place.
fn luma_v_pass_at(plane: &mut [u8], cw: u32, ch: u32, edges: &EdgeMap, q: &[i32])
    requires
        cw % 8 == 0,
        ch % 8 == 0,
        old(plane)@.len() >= cw * ch,
        edges@.2 == cw / 4,
        edges@.0.len() <= q@.len(),
    ensures
        final(plane)@ == luma_v_pass(
            old(plane)@,
            cw as int,
            (ch / 4) as int,
            edges@.0,
            (cw / 4) as int,
            q@,
            if cw >= 8 {
                (cw / 8 - 1) as int
            } else {
                0
            },
        ),
        final(plane)@.len() == old(plane)@.len(),
{
    let ghost s = plane@;
    let ghost cells = edges@.0;
    let len = plane.len();
    let qlen = q.len();
    let w = cw as usize;
    let w4 = w / 4;
    let rows = (ch / 4) as usize;
    let cols: usize = if cw >= 8 {
        (cw / 8 - 1) as usize
    } else {
        0
    };
    let mut a: usize = 0;
    while a < cols
        invariant
            cw % 8 == 0,
            ch % 8 == 0,
            w == cw,
            w4 == cw / 4,
            rows == ch / 4,
            cols == (if cw >= 8 { (cw / 8 - 1) as int } else { 0 }),
            a <= cols,
            len == s.len(),
            s.len() >= cw * ch,
            edges@.2 == cw / 4,
            cells == edges@.0,
            cells.len() <= q@.len(),
            qlen == q@.len(),
            plane@.len() == s.len(),
            plane@ == luma_v_pass(s, cw as int, rows as int, cells, w4 as int, q@, a as int),
        decreases cols - a,
    {
        let x: usize = 8 * (a + 1);
        let ghost col_start = plane@;
        let mut k: usize = 0;
        while k < rows
            invariant
                cw % 8 == 0,
                ch % 8 == 0,
                w == cw,
                w4 == cw / 4,
                rows == ch / 4,
                a < cols,
                cols == (if cw >= 8 { (cw / 8 - 1) as int } else { 0 }),
                x == 8 * (a + 1),
                k <= rows,
                len == s.len(),
                s.len() >= cw * ch,
                edges@.2 == cw / 4,
                cells == edges@.0,
                cells.len() <= q@.len(),
                qlen == q@.len(),
                plane@.len() == s.len(),
                plane@ == luma_v_column(col_start, cw as int, cells, w4 as int, q@, x as int, k as int),
            decreases rows - k,
        {
            let yy: usize = 4 * k;
            if edges.has_left(x as u32, yy as u32) {
                let i = cell_at(x, yy, w4, Ghost(qlen as int));
                let qp = q[i];
                proof {
                    lemma_in_plane(cw as int, ch as int, x as int, yy as int, 3, 3);
                }
                luma_segment_at(plane, w, x, yy, 1, w, qp);
            }
            k = k + 1;
        }
        a = a + 1;
    }
}

/// The horizontal luma pass, in place.
fn luma_h_pass_at(plane: &mut [u8], cw: u32, ch: u32, edges: &EdgeMap, q: &[i32])
    requires
        cw % 8 == 0,
        ch % 8 == 0,
        old(plane)@.len() >= cw * ch,
        edges@.2 == cw / 4,
        edges@.1.len() <= q@.len(),
    ensures
        final(plane)@ == luma_h_pass(
            old(plane)@,
            cw as int,
            (cw / 4) as int,
            edges@.1,
            (cw / 4) as int,
            q@,
            if ch >= 8 {
                (ch / 8 - 1) as int
            } else {
                0
            },
        ),
        final(plane)@.len() == old(plane)@.len(),
{
    let ghost s = plane@;
    let ghost cells = edges@.1;
    let len = plane.len();
    let qlen = q.len();
    let w = cw as usize;
    let w4 = w / 4;
    let cols = w4;
    let rows: usize = if ch >= 8 {
        (ch / 8 - 1) as usize
    } else {
        0
    };
    let mut b: usize = 0;
    while b < rows
        invariant
            cw % 8 == 0,
            ch % 8 == 0,
            w == cw,
            w4 == cw / 4,
            cols == w4,
            rows == (if ch >= 8 { (ch / 8 - 1) as int } else { 0 }),
            b <= rows,
            len == s.len(),
            s.len() >= cw * ch,
            edges@.2 == cw / 4,
            cells == edges@.1,
            cells.len() <= q@.len(),
            qlen == q@.len(),
            plane@.len() == s.len(),
            plane@ == luma_h_pass(s, cw as int, cols as int, cells, w4 as int, q@, b as int),
        decreases rows - b,
    {
        let yy: usize = 8 * (b + 1);
        let ghost row_start = plane@;
        let mut k: usize = 0;
        while k < cols
            invariant
                cw % 8 == 0,
                ch % 8 == 0,
                w == cw,
                w4 == cw / 4,
                cols == w4,
                b < rows,
                rows == (if ch >= 8 { (ch / 8 - 1) as int } else { 0 }),
                yy == 8 * (b + 1),
                k <= cols,
                len == s.len(),
                s.len() >= cw * ch,
                edges@.2 == cw / 4,
                cells == edges@.1,
                cells.len() <= q@.len(),
                qlen == q@.len(),
                plane@.len() == s.len(),
                plane@ == luma_h_row(row_start, cw as int, cells, w4 as int, q@, yy as int, k as int),
            decreases cols - k,
        {
            let x: usize = 4 * k;
            if edges.has_top(x as u32, yy as u32) {
                let i = cell_at(x, yy, w4, Ghost(qlen as int));
                let qp = q[i];
                proof {
                    lemma_in_plane(cw as int, ch as int, x as int, yy as int, 3, 3);
                }
                luma_segment_at(plane, w, x, yy, w, 1, qp);
            }
            k = k + 1;
        }
        b = b + 1;
    }
}

/// The vertical chroma pass over one chroma plane, in place.
fn chroma_v_pass_at(plane: &mut [u8], cw: u32, ch: u32, edges: &EdgeMap, q: &[i32])
    requires
        cw % 8 == 0,
        ch % 8 == 0,
        old(plane)@.len() >= (cw / 2) * (ch / 2),
        edges@.2 == cw / 4,
        edges@.0.len() <= q@.len(),
    ensures
        final(plane)@ == chroma_v_pass(
            old(plane)@,
            (cw / 2) as int,
            (ch / 8) as int,
            edges@.0,
            (cw / 4) as int,
            q@,
            if cw >= 2 {
                ((cw / 2 - 1) / 8) as int
            } else {
                0
            },
        ),
        final(plane)@.len() == old(plane)@.len(),
{
    let ghost s = plane@;
    let ghost cells = edges@.0;
    let len = plane.len();
    let qlen = q.len();
    let wc = (cw / 2) as usize;
    let w4 = (cw / 4) as usize;
    let rows = (ch / 8) as usize;
    let cols: usize = if cw >= 2 {
        ((cw / 2 - 1) / 8) as usize
    } else {
        0
    };
    let mut a: usize = 0;
    while a < cols
        invariant
            cw % 8 == 0,
            ch % 8 == 0,
            wc == cw / 2,
            w4 == cw / 4,
            rows == ch / 8,
            cols == (if cw >= 2 { ((cw / 2 - 1) / 8) as int } else { 0 }),
            a <= cols,
            len == s.len(),
            s.len() >= (cw / 2) * (ch / 2),
            edges@.2 == cw / 4,
            cells == edges@.0,
            cells.len() <= q@.len(),
            qlen == q@.len(),
            plane@.len() == s.len(),
            plane@ == chroma_v_pass(s, wc as int, rows as int, cells, w4 as int, q@, a as int),
        decreases cols - a,
    {
        let x: usize = 8 * (a + 1);
        let ghost col_start = plane@;
        let mut k: usize = 0;
        while k < rows
            invariant
                cw % 8 == 0,
                ch % 8 == 0,
                wc == cw / 2,
                w4 == cw / 4,
                rows == ch / 8,
                a < cols,
                cols == (if cw >= 2 { ((cw / 2 - 1) / 8) as int } else { 0 }),
                x == 8 * (a + 1),
                k <= rows,
                len == s.len(),
                s.len() >= (cw / 2) * (ch / 2),
                edges@.2 == cw / 4,
                cells == edges@.0,
                cells.len() <= q@.len(),
                qlen == q@.len(),
                plane@.len() == s.len(),
                plane@ == chroma_v_column(col_start, wc as int, cells, w4 as int, q@, x as int, k as int),
            decreases rows - k,
        {
            let yy: usize = 4 * k;
            if edges.has_left((2 * x) as u32, (2 * yy) as u32) {
                let i = cell_at(2 * x, 2 * yy, w4, Ghost(qlen as int));
                let qp = q[i];
                proof {
                    lemma_in_plane((cw / 2) as int, (ch / 2) as int, x as int, yy as int, 1, 3);
                }
                chroma_segment_at(plane, wc, x, yy, 1, wc, qp);
            }
            k = k + 1;
        }
        a = a + 1;
    }
}

/// The horizontal chroma pass over one chroma plane, in place.
fn chroma_h_pass_at(plane: &mut [u8], cw: u32, ch: u32, edges: &EdgeMap, q: &[i32])
    requires
        cw % 8 == 0,
        ch % 8 == 0,
        old(plane)@.len() >= (cw / 2) * (ch / 2),
        edges@.2 == cw / 4,
        edges@.1.len() <= q@.len(),
    ensures
        final(plane)@ == chroma_h_pass(
            old(plane)@,
            (cw / 2) as int,
            (cw / 8) as int,
            edges@.1,
            (cw / 4) as int,
            q@,
            if ch >= 2 {
                ((ch / 2 - 1) / 8) as int
            } else {
                0
            },
        ),
        final(plane)@.len() == old(plane)@.len(),
{
    let ghost s = plane@;
    let ghost cells = edges@.1;
    let len = plane.len();
    let qlen = q.len();
    let wc = (cw / 2) as usize;
    let w4 = (cw / 4) as usize;
    let cols = (cw / 8) as usize;
    let rows: usize = if ch >= 2 {
        ((ch / 2 - 1) / 8) as usize
    } else {
        0
    };
    let mut b: usize = 0;
    while b < rows
        invariant
            cw % 8 == 0,
            ch % 8 == 0,
            wc == cw / 2,
            w4 == cw / 4,
            cols == cw / 8,
            rows == (if ch >= 2 { ((ch / 2 - 1) / 8) as int } else { 0 }),
            b <= rows,
            len == s.len(),
            s.len() >= (cw / 2) * (ch / 2),
            edges@.2 == cw / 4,
            cells == edges@.1,
            cells.len() <= q@.len(),
            qlen == q@.len(),
            plane@.len() == s.len(),
            plane@ == chroma_h_pass(s, wc as int, cols as int, cells, w4 as int, q@, b as int),
        decreases rows - b,
    {
        let yy: usize = 8 * (b + 1);
        let ghost row_start = plane@;
        let mut k: usize = 0;
        while k < cols
            invariant
                cw % 8 == 0,
                ch % 8 == 0,
                wc == cw / 2,
                w4 == cw / 4,
                cols == cw / 8,
                b < rows,
                rows == (if ch >= 2 { ((ch / 2 - 1) / 8) as int } else { 0 }),
                yy == 8 * (b + 1),
                k <= cols,
                len == s.len(),
                s.len() >= (cw / 2) * (ch / 2),
                edges@.2 == cw / 4,
                cells == edges@.1,
                cells.len() <= q@.len(),
                qlen == q@.len(),
                plane@.len() == s.len(),
                plane@ == chroma_h_row(row_start, wc as int, cells, w4 as int, q@, yy as int, k as int),
            decreases cols - k,
        {
            let x: usize = 4 * k;
            if edges.has_top((2 * x) as u32, (2 * yy) as u32) {
                let i = cell_at(2 * x, 2 * yy, w4, Ghost(qlen as int));
                let qp = q[i];
                proof {
                    lemma_in_plane((cw / 2) as int, (ch / 2) as int, x as int, yy as int, 3, 1);
                }
                chroma_segment_at(plane, wc, x, yy, wc, 1, qp);
            }
            k = k + 1;
        }
        b = b + 1;
    }
}

/// The luma plane after the whole filter: every vertical edge of the picture,
/// then every horizontal one, the second pass reading what the first wrote.
/// `qv` and `qh` hold, per 4×4 cell, the quantizer of the vertical and
/// horizontal edge at that cell.
pub open spec fn deblock_luma(p: Seq<u8>, cw: int, ch: int, m: (Seq<bool>, Seq<bool>, nat), qv: Seq<i32>, qh: Seq<i32>) -> Seq<u8> {
    let vertical = luma_v_pass(p, cw, ch / 4, m.0, cw / 4, qv, if cw >= 8 {
        cw / 8 - 1
    } else {
        0
    });
    luma_h_pass(vertical, cw, cw / 4, m.1, cw / 4, qh, if ch >= 8 {
        ch / 8 - 1
    } else {
        0
    })
}

/// One chroma plane after the whole filter; chroma sits on its own 8×8 grid,
/// every sixteenth luma sample in 4:2:0.
pub open spec fn deblock_chroma(p: Seq<u8>, cw: int, ch: int, m: (Seq<bool>, Seq<bool>, nat), qv: Seq<i32>, qh: Seq<i32>) -> Seq<u8> {
    let vertical = chroma_v_pass(p, cw / 2, ch / 8, m.0, cw / 4, qv, if cw >= 2 {
        (cw / 2 - 1) / 8
    } else {
        0
    });
    chroma_h_pass(vertical, cw / 2, cw / 8, m.1, cw / 4, qh, if ch >= 2 {
        (ch / 2 - 1) / 8
    } else {
        0
    })
}

/// What the filter asks of its inputs: a coded size on the 8×8 grid, planes
/// that hold it, an edge map laid over it, and a quantizer for every cell.
pub open spec fn deblock_inputs_ok(
    ylen: int,
    ulen: int,
    vlen: int,
    cw: int,
    ch: int,
    m: (Seq<bool>, Seq<bool>, nat),
    qlens: (int, int, int, int),
) -> bool {
    &&& cw % 8 == 0
    &&& ch % 8 == 0
    &&& ylen >= cw * ch
    &&& ulen >= (cw / 2) * (ch / 2)
    &&& vlen >= (cw / 2) * (ch / 2)
    &&& m.2 == cw / 4
    &&& m.0.len() <= qlens.0
    &&& m.1.len() <= qlens.1
    &&& m.0.len() <= qlens.2
    &&& m.1.len() <= qlens.3
}

/// Filter the picture in place, given per-cell quantizers: `qv` / `qh` for
/// the luma vertical / horizontal edges and `qcv` / `qch` the chroma
/// quantizers of the chroma edges sitting on them.
pub fn deblock_with_qps(
    y: &mut [u8],
    u: &mut [u8],
    v: &mut [u8],
    cw: u32,
    ch: u32,
    edges: &EdgeMap,
    qv: &[i32],
    qh: &[i32],
    qcv: &[i32],
    qch: &[i32],
)
    requires
        deblock_inputs_ok(
            old(y)@.len() as int,
            old(u)@.len() as int,
            old(v)@.len() as int,
            cw as int,
            ch as int,
            edges@,
            (qv@.len() as int, qh@.len() as int, qcv@.len() as int, qch@.len() as int),
        ),
    ensures
        final(y)@ == deblock_luma(old(y)@, cw as int, ch as int, edges@, qv@, qh@),
        final(u)@ == deblock_chroma(old(u)@, cw as int, ch as int, edges@, qcv@, qch@),
        final(v)@ == deblock_chroma(old(v)@, cw as int, ch as int, edges@, qcv@, qch@),
{
    luma_v_pass_at(y, cw, ch, edges, qv);
    luma_h_pass_at(y, cw, ch, edges, qh);
    chroma_v_pass_at(u, cw, ch, edges, qcv);
    chroma_h_pass_at(u, cw, ch, edges, qch);
    chroma_v_pass_at(v, cw, ch, edges, qcv);
    chroma_h_pass_at(v, cw, ch, edges, qch);
}

/// Whether the filter is off at every cell: each quantizer at most 15,
/// where `β` and `tC` are zero.
pub open spec fn all_low(q: Seq<i32>) -> bool {
    forall|i: int| 0 <= i < q.len() ==> #[trigger] q[i] <= 15
}

/// Whether the grid holds no mark at all.
pub open spec fn none_marked(cells: Seq<bool>) -> bool {
    forall|i: int| 0 <= i < cells.len() ==> !#[trigger] cells[i]
}

/// A luma pass leaves the plane as it was where its quantizers are low or
/// no edge of its direction is marked.
proof fn lemma_luma_passes_idle(
    p: Seq<u8>,
    cw: int,
    n: int,
    cells: Seq<bool>,
    w4: int,
    q: Seq<i32>,
    m: int,
    vertical: bool,
)
    requires
        cells.len() <= q.len(),
        all_low(q) || none_marked(cells),
    ensures
        vertical ==> luma_v_pass(p, cw, n, cells, w4, q, m) == p,
        !vertical ==> luma_h_pass(p, cw, n, cells, w4, q, m) == p,
    decreases m,
{
    if m > 0 {
        lemma_luma_passes_idle(p, cw, n, cells, w4, q, m - 1, vertical);
        lemma_luma_line_of_edges_idle(p, cw, cells, w4, q, 8 * m, n, vertical);
    }
}

/// One column (or row) of luma edges is idle under the same conditions.
proof fn lemma_luma_line_of_edges_idle(
    p: Seq<u8>,
    cw: int,
    cells: Seq<bool>,
    w4: int,
    q: Seq<i32>,
    at: int,
    n: int,
    vertical: bool,
)
    requires
        cells.len() <= q.len(),
        all_low(q) || none_marked(cells),
    ensures
        vertical ==> luma_v_column(p, cw, cells, w4, q, at, n) == p,
        !vertical ==> luma_h_row(p, cw, cells, w4, q, at, n) == p,
    decreases n,
{
    if n > 0 {
        lemma_luma_line_of_edges_idle(p, cw, cells, w4, q, at, n - 1, vertical);
        let (x, y) = if vertical {
            (at, 4 * (n - 1))
        } else {
            (4 * (n - 1), at)
        };
        if edge_at(cells, w4, x, y) {
            let c = map_cell(w4, x, y);
            assert(q[c] <= 15 || !cells[c]);
            lemma_tables(q[c] as int);
        }
    }
}

/// A chroma pass leaves the plane as it was where its quantizers are low or
/// no edge of its direction is marked.
proof fn lemma_chroma_passes_idle(
    p: Seq<u8>,
    cwc: int,
    n: int,
    cells: Seq<bool>,
    w4: int,
    q: Seq<i32>,
    m: int,
    vertical: bool,
)
    requires
        cells.len() <= q.len(),
        all_low(q) || none_marked(cells),
    ensures
        vertical ==> chroma_v_pass(p, cwc, n, cells, w4, q, m) == p,
        !vertical ==> chroma_h_pass(p, cwc, n, cells, w4, q, m) == p,
    decreases m,
{
    if m > 0 {
        lemma_chroma_passes_idle(p, cwc, n, cells, w4, q, m - 1, vertical);
        lemma_chroma_line_of_edges_idle(p, cwc, cells, w4, q, 8 * m, n, vertical);
    }
}

/// One chroma column (or row) of edges is idle under the same conditions.
proof fn lemma_chroma_line_of_edges_idle(
    p: Seq<u8>,
    cwc: int,
    cells: Seq<bool>,
    w4: int,
    q: Seq<i32>,
    at: int,
    n: int,
    vertical: bool,
)
    requires
        cells.len() <= q.len(),
        all_low(q) || none_marked(cells),
    ensures
        vertical ==> chroma_v_column(p, cwc, cells, w4, q, at, n) == p,
        !vertical ==> chroma_h_row(p, cwc, cells, w4, q, at, n) == p,
    decreases n,
{
    if n > 0 {
        lemma_chroma_line_of_edges_idle(p, cwc, cells, w4, q, at, n - 1, vertical);
        let (x, y) = if vertical {
            (at, 4 * (n - 1))
        } else {
            (4 * (n - 1), at)
        };
        if edge_at(cells, w4, 2 * x, 2 * y) {
            let c = map_cell(w4, 2 * x, 2 * y);
            assert(q[c] <= 15 || !cells[c]);
            lemma_tables(q[c] as int);
        }
    }
}

/// Below `Q = 16` `β` and `tC` are zero and the filter cannot fire, whatever
/// the picture: with every quantizer at most 15, every plane comes through
/// unchanged.
pub proof fn lemma_low_qp_is_a_no_op(
    p: Seq<u8>,
    cw: int,
    ch: int,
    m: (Seq<bool>, Seq<bool>, nat),
    qv: Seq<i32>,
    qh: Seq<i32>,
    chroma: bool,
)
    requires
        m.0.len() <= qv.len(),
        m.1.len() <= qh.len(),
        all_low(qv),
        all_low(qh),
    ensures
        !chroma ==> deblock_luma(p, cw, ch, m, qv, qh) == p,
        chroma ==> deblock_chroma(p, cw, ch, m, qv, qh) == p,
{
    if chroma {
        let mv = if cw >= 2 {
            (cw / 2 - 1) / 8
        } else {
            0
        };
        let mh = if ch >= 2 {
            (ch / 2 - 1) / 8
        } else {
            0
        };
        lemma_chroma_passes_idle(p, cw / 2, ch / 8, m.0, cw / 4, qv, mv, true);
        lemma_chroma_passes_idle(p, cw / 2, cw / 8, m.1, cw / 4, qh, mh, false);
    } else {
        let mv = if cw >= 8 {
            cw / 8 - 1
        } else {
            0
        };
        let mh = if ch >= 8 {
            ch / 8 - 1
        } else {
            0
        };
        lemma_luma_passes_idle(p, cw, ch / 4, m.0, cw / 4, qv, mv, true);
        lemma_luma_passes_idle(p, cw, cw / 4, m.1, cw / 4, qh, mh, false);
    }
}

/// Nothing moves where no transform block ends: with no edge marked, every
/// plane comes through unchanged at any quantizer.
pub proof fn lemma_unmarked_map_is_a_no_op(
    p: Seq<u8>,
    cw: int,
    ch: int,
    m: (Seq<bool>, Seq<bool>, nat),
    qv: Seq<i32>,
    qh: Seq<i32>,
    chroma: bool,
)
    requires
        m.0.len() <= qv.len(),
        m.1.len() <= qh.len(),
        none_marked(m.0),
        none_marked(m.1),
    ensures
        !chroma ==> deblock_luma(p, cw, ch, m, qv, qh) == p,
        chroma ==> deblock_chroma(p, cw, ch, m, qv, qh) == p,
{
    if chroma {
        let mv = if cw >= 2 {
            (cw / 2 - 1) / 8
        } else {
            0
        };
        let mh = if ch >= 2 {
            (ch / 2 - 1) / 8
        } else {
            0
        };
        lemma_chroma_passes_idle(p, cw / 2, ch / 8, m.0, cw / 4, qv, mv, true);
        lemma_chroma_passes_idle(p, cw / 2, cw / 8, m.1, cw / 4, qh, mh, false);
    } else {
        let mv = if cw >= 8 {
            cw / 8 - 1
        } else {
            0
        };
        let mh = if ch >= 8 {
            ch / 8 - 1
        } else {
            0
        };
        lemma_luma_passes_idle(p, cw, ch / 4, m.0, cw / 4, qv, mv, true);
        lemma_luma_passes_idle(p, cw, cw / 4, m.1, cw / 4, qh, mh, false);
    }
}

/// Every sample of the plane is `c`.
pub open spec fn is_flat(p: Seq<u8>, c: u8) -> bool {
    forall|i: int| 0 <= i < p.len() ==> p[i] == c
}

/// A line across a flat stretch is written back unchanged, by either luma
/// filter and by the chroma one.
proof fn lemma_flat_line(p: Seq<u8>, o: int, step: int, tc: int, ep: bool, eq: bool, c: u8)
    requires
        is_flat(p, c),
        step >= 1,
        o >= 4 * step,
        o + 3 * step < p.len(),
        0 <= tc,
    ensures
        strong_luma_line(p, o, step, tc) == p,
        weak_luma_line(p, o, step, tc, ep, eq) == p,
        chroma_line(p, o, step, tc) == p,
{
    let v = c as int;
    assert(p[o - step] == c);
    assert(p[o - 2 * step] == c);
    assert(p[o - 3 * step] == c);
    assert(p[o - 4 * step] == c);
    assert(p[o] == c);
    assert(p[o + step] == c);
    assert(p[o + 2 * step] == c);
    assert(p[o + 3 * step] == c);
    assert(clip1(v) == c);
    assert((8 * v + 4) / 8 == v);
    assert((4 * v + 2) / 4 == v);
    assert((2 * v + 1) / 2 == v);
    assert(8int / 16 == 0);
    assert(strong_luma_line(p, o, step, tc) =~= p);
    assert(weak_luma_line(p, o, step, tc, ep, eq) =~= p);
    assert(chroma_line(p, o, step, tc) =~= p);
}

/// The lines of a segment across a flat plane leave it as it was.
proof fn lemma_flat_lines(p: Seq<u8>, base: int, step: int, along: int, n: int, strong: bool, ep: bool, eq: bool, tc: int, c: u8)
    requires
        is_flat(p, c),
        step >= 1,
        along >= 0,
        base >= 4 * step,
        n >= 1 ==> base + (n - 1) * along + 3 * step < p.len(),
        0 <= tc,
    ensures
        luma_lines(p, base, step, along, n, strong, ep, eq, tc) == p,
        chroma_lines(p, base, step, along, n, tc) == p,
    decreases n,
{
    if n > 0 {
        if n > 1 {
            assert((n - 2) * along <= (n - 1) * along) by (nonlinear_arith)
                requires
                    along >= 0,
            ;
        }
        lemma_flat_lines(p, base, step, along, n - 1, strong, ep, eq, tc, c);
        assert(0 <= (n - 1) * along) by (nonlinear_arith)
            requires
                along >= 0,
                n >= 1,
        ;
        lemma_flat_line(p, base + (n - 1) * along, step, tc, ep, eq, c);
    }
}

/// A segment across a flat plane, luma or chroma, leaves it as it was.
proof fn lemma_flat_segment(p: Seq<u8>, w: int, x: int, y: int, step: int, along: int, qp: int, c: u8)
    requires
        is_flat(p, c),
        step >= 1,
        along >= 0,
        y * w + x >= 4 * step,
        y * w + x + 3 * along + 3 * step < p.len(),
    ensures
        luma_segment(p, w, x, y, step, along, qp) == p,
        chroma_segment(p, w, x, y, step, along, qp) == p,
{
    lemma_tables(qp);
    let base = y * w + x;
    let tc = tc_of(qp);
    lemma_flat_lines(p, base, step, along, 4, true, true, true, tc, c);
    lemma_flat_lines(p, base, step, along, 4, true, true, false, tc, c);
    lemma_flat_lines(p, base, step, along, 4, true, false, true, tc, c);
    lemma_flat_lines(p, base, step, along, 4, true, false, false, tc, c);
    lemma_flat_lines(p, base, step, along, 4, false, true, true, tc, c);
    lemma_flat_lines(p, base, step, along, 4, false, true, false, tc, c);
    lemma_flat_lines(p, base, step, along, 4, false, false, true, tc, c);
    lemma_flat_lines(p, base, step, along, 4, false, false, false, tc, c);
}

/// A column or row of edges across a flat `w`×`h` plane leaves it as it was;
/// `at` is the column (`vertical`) or row of the edges, and every segment
/// reaches at most four samples either way inside the plane.
proof fn lemma_flat_edges(
    p: Seq<u8>,
    w: int,
    h: int,
    cells: Seq<bool>,
    w4: int,
    q: Seq<i32>,
    at: int,
    n: int,
    vertical: bool,
    luma: bool,
    c: u8,
)
    requires
        is_flat(p, c),
        p.len() >= w * h,
        w % 4 == 0,
        h % 4 == 0,
        vertical ==> 8 <= at && at + 4 <= w && 4 * n <= h,
        !vertical ==> 8 <= at && at + 4 <= h && 4 * n <= w,
    ensures
        luma && vertical ==> luma_v_column(p, w, cells, w4, q, at, n) == p,
        luma && !vertical ==> luma_h_row(p, w, cells, w4, q, at, n) == p,
        !luma && vertical ==> chroma_v_column(p, w, cells, w4, q, at, n) == p,
        !luma && !vertical ==> chroma_h_row(p, w, cells, w4, q, at, n) == p,
    decreases n,
{
    if n > 0 {
        lemma_flat_edges(p, w, h, cells, w4, q, at, n - 1, vertical, luma, c);
        let (x, y) = if vertical {
            (at, 4 * (n - 1))
        } else {
            (4 * (n - 1), at)
        };
        lemma_in_plane(w, h, x, y, 3, 3);
        if vertical {
            if edge_at(cells, w4, x, y) || edge_at(cells, w4, 2 * x, 2 * y) {
                let qa = q[map_cell(w4, x, y)] as int;
                let qb = q[map_cell(w4, 2 * x, 2 * y)] as int;
                lemma_flat_segment(p, w, x, y, 1, w, qa, c);
                lemma_flat_segment(p, w, x, y, 1, w, qb, c);
            }
        } else {
            if edge_at(cells, w4, x, y) || edge_at(cells, w4, 2 * x, 2 * y) {
                let qa = q[map_cell(w4, x, y)] as int;
                let qb = q[map_cell(w4, 2 * x, 2 * y)] as int;
                lemma_flat_segment(p, w, x, y, w, 1, qa, c);
                lemma_flat_segment(p, w, x, y, w, 1, qb, c);
            }
        }
    }
}

/// The luma and chroma passes across a flat plane leave it as it was.
proof fn lemma_flat_passes(
    p: Seq<u8>,
    w: int,
    h: int,
    cells: Seq<bool>,
    w4: int,
    q: Seq<i32>,
    n: int,
    m: int,
    vertical: bool,
    luma: bool,
    c: u8,
)
    requires
        is_flat(p, c),
        p.len() >= w * h,
        w % 4 == 0,
        h % 4 == 0,
        vertical ==> (m <= 0 || 8 * m + 4 <= w) && 4 * n <= h,
        !vertical ==> (m <= 0 || 8 * m + 4 <= h) && 4 * n <= w,
    ensures
        luma && vertical ==> luma_v_pass(p, w, n, cells, w4, q, m) == p,
        luma && !vertical ==> luma_h_pass(p, w, n, cells, w4, q, m) == p,
        !luma && vertical ==> chroma_v_pass(p, w, n, cells, w4, q, m) == p,
        !luma && !vertical ==> chroma_h_pass(p, w, n, cells, w4, q, m) == p,
    decreases m,
{
    if m > 0 {
        lemma_flat_passes(p, w, h, cells, w4, q, n, m - 1, vertical, luma, c);
        lemma_flat_edges(p, w, h, cells, w4, q, 8 * m, n, vertical, luma, c);
    }
}

/// A flat picture has no edge to find: at any quantizers and with any edges
/// marked, every plane comes through the filter unchanged.
pub proof fn lemma_flat_picture_is_kept(
    p: Seq<u8>,
    cw: int,
    ch: int,
    m: (Seq<bool>, Seq<bool>, nat),
    qv: Seq<i32>,
    qh: Seq<i32>,
    chroma: bool,
    c: u8,
)
    requires
        is_flat(p, c),
        cw >= 0,
        ch >= 0,
        cw % 8 == 0,
        ch % 8 == 0,
        !chroma ==> p.len() >= cw * ch,
        chroma ==> p.len() >= (cw / 2) * (ch / 2),
    ensures
        !chroma ==> deblock_luma(p, cw, ch, m, qv, qh) == p,
        chroma ==> deblock_chroma(p, cw, ch, m, qv, qh) == p,
{
    if chroma {
        let cwc = cw / 2;
        let chc = ch / 2;
        let mv = if cw >= 2 {
            (cw / 2 - 1) / 8
        } else {
            0
        };
        let mh = if ch >= 2 {
            (ch / 2 - 1) / 8
        } else {
            0
        };
        if cw >= 2 {
            assert(8 * mv + 4 <= cwc) by (nonlinear_arith)
                requires
                    cwc % 4 == 0,
                    cwc >= 1,
                    mv == (cwc - 1) / 8,
            ;
        }
        if ch >= 2 {
            assert(8 * mh + 4 <= chc) by (nonlinear_arith)
                requires
                    chc % 4 == 0,
                    chc >= 1,
                    mh == (chc - 1) / 8,
            ;
        }
        assert(4 * (ch / 8) <= chc);
        assert(4 * (cw / 8) <= cwc);
        lemma_flat_passes(p, cwc, chc, m.0, cw / 4, qv, ch / 8, mv, true, false, c);
        lemma_flat_passes(p, cwc, chc, m.1, cw / 4, qh, cw / 8, mh, false, false, c);
    } else {
        let mv = if cw >= 8 {
            cw / 8 - 1
        } else {
            0
        };
        let mh = if ch >= 8 {
            ch / 8 - 1
        } else {
            0
        };
        lemma_flat_passes(p, cw, ch, m.0, cw / 4, qv, ch / 4, mv, true, true, c);
        lemma_flat_passes(p, cw, ch, m.1, cw / 4, qh, cw / 4, mh, false, true, c);
    }
}

/// The chroma filter smooths a step: across an edge with flat sides
/// (`p1 = p0 < q0 = q1`) and `tC > 0`, `p0` never moves down and `q0`
/// never up (both move once the step is two or more), and the step between
/// them never widens. Exactly, `p0' = Clip1(p0 + Δ)` and
/// `q0' = Clip1(q0 − Δ)` with `Δ = Clip3(−tC, tC, (4(q0 − p0) + p1 − q1 + 4) >> 3)`.
pub proof fn lemma_chroma_line_smooths_a_step(p: Seq<u8>, o: int, step: int, tc: int)
    requires
        step >= 1,
        o - 2 * step >= 0,
        o + step < p.len(),
        tc > 0,
        p[o - 2 * step] == p[o - step],
        p[o] == p[o + step],
        p[o - step] < p[o],
    ensures
        ({
            let r = chroma_line(p, o, step, tc);
            let p0 = p[o - step] as int;
            let q0 = p[o] as int;
            let d = clamp((4 * (q0 - p0) + (p[o - 2 * step] - p[o + step]) + 4) / 8, -tc, tc);
            &&& r[o - step] >= p0
            &&& r[o] <= q0
            &&& q0 - p0 >= 2 ==> r[o - step] > p0 && r[o] < q0
            &&& abs(r[o] - r[o - step]) <= q0 - p0
            &&& r[o - step] == clip1(p0 + d)
            &&& r[o] == clip1(q0 - d)
        }),
{
    let p0 = p[o - step] as int;
    let q0 = p[o] as int;
    let d = clamp((4 * (q0 - p0) + (p[o - 2 * step] - p[o + step]) + 4) / 8, -tc, tc);
    assert(p[o - 2 * step] - p[o + step] == p0 - q0);
    assert((4 * (q0 - p0) + (p0 - q0) + 4) / 8 == (3 * (q0 - p0) + 4) / 8);
    assert(0 <= d <= (q0 - p0 + 1) / 2);
    assert(q0 - p0 >= 2 ==> d >= 1);
    assert(0 <= p0 + d <= q0 <= 255);
    assert(0 <= p0 <= q0 - d <= 255);
    assert(clip1(p0 + d) as int == p0 + d);
    assert(clip1(q0 - d) as int == q0 - d);
    let r = chroma_line(p, o, step, tc);
    assert(r[o - step] == clip1(p0 + d));
    assert(r[o] == clip1(q0 - d));
}

/// The normal luma filter never sharpens a step: across an edge with flat
/// sides (`p2 = p1 = p0 < q0 = q1 = q2`) `p0` never moves down, `q0` never
/// up, and the step between them never widens.
pub proof fn lemma_weak_luma_line_smooths_a_step(p: Seq<u8>, o: int, step: int, tc: int, ep: bool, eq: bool)
    requires
        step >= 1,
        o - 3 * step >= 0,
        o + 2 * step < p.len(),
        tc >= 0,
        p[o - 3 * step] == p[o - step],
        p[o - 2 * step] == p[o - step],
        p[o + step] == p[o],
        p[o + 2 * step] == p[o],
        p[o - step] < p[o],
    ensures
        ({
            let r = weak_luma_line(p, o, step, tc, ep, eq);
            &&& r[o - step] >= p[o - step]
            &&& r[o] <= p[o]
            &&& abs(r[o] - r[o - step]) <= p[o] - p[o - step]
        }),
{
    let p0 = p[o - step] as int;
    let q0 = p[o] as int;
    let delta = (9 * (q0 - p0) - 3 * (q0 - p0) + 8) / 16;
    assert(0 <= delta <= (q0 - p0 + 1) / 2);
}

/// The strong luma filter never sharpens a step either: across flat sides
/// (`p3 = .. = p0 < q0 = .. = q3`) `p0` never moves down, `q0` never up,
/// the step between them never widens, and the six samples it writes stay
/// in order between `p0` and `q0`.
pub proof fn lemma_strong_luma_line_smooths_a_step(p: Seq<u8>, o: int, step: int, tc: int)
    requires
        step >= 1,
        o - 4 * step >= 0,
        o + 3 * step < p.len(),
        tc >= 0,
        p[o - 4 * step] == p[o - step],
        p[o - 3 * step] == p[o - step],
        p[o - 2 * step] == p[o - step],
        p[o + step] == p[o],
        p[o + 2 * step] == p[o],
        p[o + 3 * step] == p[o],
        p[o - step] < p[o],
    ensures
        ({
            let r = strong_luma_line(p, o, step, tc);
            &&& r[o - step] >= p[o - step]
            &&& r[o] <= p[o]
            &&& abs(r[o] - r[o - step]) <= p[o] - p[o - step]
            &&& p[o - step] <= r[o - 3 * step] <= r[o - 2 * step] <= r[o - step] <= r[o] <= r[o + step] <= r[o + 2
                * step] <= p[o]
        }),
{
}

// ---------------------------------------------------------------- locality

/// Origin (first `q0`) of line `l` of a segment whose first line starts at
/// `base`, lines `along` apart.
pub open spec fn line_origin(base: int, along: int, l: int) -> int {
    base + l * along
}

/// Index `i` is none of the six samples a luma line through `o` may write:
/// three on each side of the edge.
pub open spec fn off_line(i: int, o: int, step: int) -> bool {
    &&& i != o - 3 * step
    &&& i != o - 2 * step
    &&& i != o - step
    &&& i != o
    &&& i != o + step
    &&& i != o + 2 * step
}

/// The six samples a line through `o` may write lie inside a plane of `len`.
pub open spec fn line_in(o: int, step: int, len: int) -> bool {
    step >= 1 && o - 3 * step >= 0 && o + 2 * step < len
}

/// Six writes around `o` leave every other sample as it was.
proof fn lemma_six_writes(p: Seq<u8>, o: int, step: int, i: int, a: u8, b: u8, c: u8, d: u8, e: u8, f: u8)
    requires
        line_in(o, step, p.len() as int),
        0 <= i < p.len(),
        off_line(i, o, step),
    ensures
        p.update(o - step, a).update(o - 2 * step, b).update(o - 3 * step, c).update(o, d).update(o + step, e).update(
            o + 2 * step,
            f,
        ).len() == p.len(),
        p.update(o - step, a).update(o - 2 * step, b).update(o - 3 * step, c).update(o, d).update(o + step, e).update(
            o + 2 * step,
            f,
        )[i] == p[i],
{
}

/// The strong luma filter writes only the six samples of its line.
#[verifier::spinoff_prover]
proof fn lemma_strong_line_is_local(p: Seq<u8>, o: int, step: int, tc: int, i: int)
    requires
        line_in(o, step, p.len() as int),
        0 <= i < p.len(),
        off_line(i, o, step),
    ensures
        strong_luma_line(p, o, step, tc).len() == p.len(),
        strong_luma_line(p, o, step, tc)[i] == p[i],
{
    let s = strong_luma_line(p, o, step, tc);
    lemma_six_writes(p, o, step, i, s[o - step], s[o - 2 * step], s[o - 3 * step], s[o], s[o + step], s[o + 2 * step]);
}

/// The normal luma filter writes only samples of its line.
#[verifier::spinoff_prover]
proof fn lemma_weak_line_is_local(p: Seq<u8>, o: int, step: int, tc: int, ep: bool, eq: bool, i: int)
    requires
        line_in(o, step, p.len() as int),
        0 <= i < p.len(),
        off_line(i, o, step),
    ensures
        weak_luma_line(p, o, step, tc, ep, eq).len() == p.len(),
        weak_luma_line(p, o, step, tc, ep, eq)[i] == p[i],
{
}

/// A luma line writes only its six samples.
proof fn lemma_line_is_local(p: Seq<u8>, o: int, step: int, tc: int, ep: bool, eq: bool, i: int)
    requires
        line_in(o, step, p.len() as int),
        0 <= i < p.len(),
        off_line(i, o, step),
    ensures
        strong_luma_line(p, o, step, tc).len() == p.len(),
        strong_luma_line(p, o, step, tc)[i] == p[i],
        weak_luma_line(p, o, step, tc, ep, eq).len() == p.len(),
        weak_luma_line(p, o, step, tc, ep, eq)[i] == p[i],
{
    lemma_strong_line_is_local(p, o, step, tc, i);
    lemma_weak_line_is_local(p, o, step, tc, ep, eq, i);
}

/// The lines of a luma segment write only their own samples.
proof fn lemma_lines_are_local(
    p: Seq<u8>,
    base: int,
    step: int,
    along: int,
    n: int,
    strong: bool,
    ep: bool,
    eq: bool,
    tc: int,
    i: int,
)
    requires
        0 <= i < p.len(),
        forall|l: int|
            0 <= l < n ==> line_in(#[trigger] line_origin(base, along, l), step, p.len() as int) && off_line(
                i,
                line_origin(base, along, l),
                step,
            ),
    ensures
        luma_lines(p, base, step, along, n, strong, ep, eq, tc).len() == p.len(),
        luma_lines(p, base, step, along, n, strong, ep, eq, tc)[i] == p[i],
    decreases n,
{
    if n > 0 {
        lemma_lines_are_local(p, base, step, along, n - 1, strong, ep, eq, tc, i);
        let prev = luma_lines(p, base, step, along, n - 1, strong, ep, eq, tc);
        let o = line_origin(base, along, n - 1);
        assert(line_in(o, step, p.len() as int) && off_line(i, o, step));
        lemma_line_is_local(prev, o, step, tc, ep, eq, i);
    }
}

/// A luma segment writes only the samples of its four lines.
proof fn lemma_segment_is_local(p: Seq<u8>, w: int, x: int, y: int, step: int, along: int, qp: int, i: int)
    requires
        0 <= i < p.len(),
        forall|l: int|
            0 <= l < 4 ==> line_in(#[trigger] line_origin(y * w + x, along, l), step, p.len() as int)
                && off_line(i, line_origin(y * w + x, along, l), step),
    ensures
        luma_segment(p, w, x, y, step, along, qp).len() == p.len(),
        luma_segment(p, w, x, y, step, along, qp)[i] == p[i],
{
    let tc = tc_of(qp);
    let base = y * w + x;
    lemma_lines_are_local(p, base, step, along, 4, true, true, true, tc, i);
    lemma_lines_are_local(p, base, step, along, 4, true, true, false, tc, i);
    lemma_lines_are_local(p, base, step, along, 4, true, false, true, tc, i);
    lemma_lines_are_local(p, base, step, along, 4, true, false, false, tc, i);
    lemma_lines_are_local(p, base, step, along, 4, false, true, true, tc, i);
    lemma_lines_are_local(p, base, step, along, 4, false, true, false, tc, i);
    lemma_lines_are_local(p, base, step, along, 4, false, false, true, tc, i);
    lemma_lines_are_local(p, base, step, along, 4, false, false, false, tc, i);
}

/// Row `r` and column `c` of a plane `w` wide are fixed by the index.
proof fn lemma_row_col_unique(w: int, r: int, c: int, r2: int, c2: int)
    requires
        0 <= c < w,
        0 <= c2 < w,
        r * w + c == r2 * w + c2,
    ensures
        r == r2,
        c == c2,
{
    assert(r == r2) by (nonlinear_arith)
        requires
            0 <= c < w,
            0 <= c2 < w,
            r * w + c == r2 * w + c2,
    ;
}

/// The vertical edges of column `x` change sample `(r, c)` only where the
/// segment of rows `4⌊r/4⌋..` is marked and `c` lies within three samples
/// left or two right of `x`.
proof fn lemma_v_column_is_local(
    p: Seq<u8>,
    cw: int,
    ch: int,
    cells: Seq<bool>,
    w4: int,
    q: Seq<i32>,
    x: int,
    n: int,
    r: int,
    c: int,
)
    requires
        p.len() >= cw * ch,
        3 <= x <= cw - 3,
        0 <= n,
        4 * n <= ch,
        0 <= r < ch,
        0 <= c < cw,
        !(edge_at(cells, w4, x, 4 * (r / 4)) && x - 3 <= c <= x + 2),
    ensures
        luma_v_column(p, cw, cells, w4, q, x, n).len() == p.len(),
        luma_v_column(p, cw, cells, w4, q, x, n)[r * cw + c] == p[r * cw + c],
    decreases n,
{
    if n > 0 {
        lemma_v_column_is_local(p, cw, ch, cells, w4, q, x, n - 1, r, c);
        let prev = luma_v_column(p, cw, cells, w4, q, x, n - 1);
        let y = 4 * (n - 1);
        let i = r * cw + c;
        lemma_in_plane(cw, ch, c, r, 0, 0);
        if edge_at(cells, w4, x, y) {
            assert forall|l: int| 0 <= l < 4 implies line_in(
                #[trigger] line_origin(y * cw + x, cw, l),
                1,
                prev.len() as int,
            ) && off_line(i, line_origin(y * cw + x, cw, l), 1) by {
                lemma_in_plane(cw, ch, x, y, 2, l);
                assert(0 <= y * cw) by (nonlinear_arith)
                    requires
                        y >= 0,
                        cw >= 0,
                ;
                assert(0 <= l * cw) by (nonlinear_arith)
                    requires
                        l >= 0,
                        cw >= 0,
                ;
                let o = line_origin(y * cw + x, cw, l);
                assert(o == (y + l) * cw + x) by (nonlinear_arith)
                    requires
                        o == y * cw + x + l * cw,
                ;
                assert(r / 4 != n - 1 || !(x - 3 <= c <= x + 2));
                if i == o - 3 { lemma_row_col_unique(cw, r, c, y + l, x - 3); }
                if i == o - 2 { lemma_row_col_unique(cw, r, c, y + l, x - 2); }
                if i == o - 1 { lemma_row_col_unique(cw, r, c, y + l, x - 1); }
                if i == o { lemma_row_col_unique(cw, r, c, y + l, x); }
                if i == o + 1 { lemma_row_col_unique(cw, r, c, y + l, x + 1); }
                if i == o + 2 { lemma_row_col_unique(cw, r, c, y + l, x + 2); }
            }
            lemma_segment_is_local(prev, cw, x, y, 1, cw, q[map_cell(w4, x, y)] as int, i);
        }
    }
}

/// The horizontal edges of row `y` change sample `(r, c)` only where the
/// segment of columns `4⌊c/4⌋..` is marked and `r` lies within three rows
/// above or two below `y`.
proof fn lemma_h_row_is_local(
    p: Seq<u8>,
    cw: int,
    ch: int,
    cells: Seq<bool>,
    w4: int,
    q: Seq<i32>,
    y: int,
    n: int,
    r: int,
    c: int,
)
    requires
        p.len() >= cw * ch,
        3 <= y <= ch - 3,
        0 <= n,
        4 * n <= cw,
        0 <= r < ch,
        0 <= c < cw,
        !(edge_at(cells, w4, 4 * (c / 4), y) && y - 3 <= r <= y + 2),
    ensures
        luma_h_row(p, cw, cells, w4, q, y, n).len() == p.len(),
        luma_h_row(p, cw, cells, w4, q, y, n)[r * cw + c] == p[r * cw + c],
    decreases n,
{
    if n > 0 {
        lemma_h_row_is_local(p, cw, ch, cells, w4, q, y, n - 1, r, c);
        let prev = luma_h_row(p, cw, cells, w4, q, y, n - 1);
        let x = 4 * (n - 1);
        let i = r * cw + c;
        lemma_in_plane(cw, ch, c, r, 0, 0);
        if edge_at(cells, w4, x, y) {
            assert forall|l: int| 0 <= l < 4 implies line_in(
                #[trigger] line_origin(y * cw + x, 1, l),
                cw,
                prev.len() as int,
            ) && off_line(i, line_origin(y * cw + x, 1, l), cw) by {
                let o = line_origin(y * cw + x, 1, l);
                assert(o == y * cw + (x + l));
                lemma_in_plane(cw, ch, x + l, y - 3, 0, 5);
                assert((y - 3) * cw == y * cw - 3 * cw) by (nonlinear_arith);
                assert((y - 3) * cw + 5 * cw == y * cw + 2 * cw) by (nonlinear_arith);
                assert(c / 4 != n - 1 || !(y - 3 <= r <= y + 2));
                assert(o - 3 * cw == (y - 3) * cw + (x + l)) by (nonlinear_arith)
                    requires
                        o == y * cw + (x + l),
                ;
                assert(o - 2 * cw == (y - 2) * cw + (x + l)) by (nonlinear_arith)
                    requires
                        o == y * cw + (x + l),
                ;
                assert(o - cw == (y - 1) * cw + (x + l)) by (nonlinear_arith)
                    requires
                        o == y * cw + (x + l),
                ;
                assert(o + cw == (y + 1) * cw + (x + l)) by (nonlinear_arith)
                    requires
                        o == y * cw + (x + l),
                ;
                assert(o + 2 * cw == (y + 2) * cw + (x + l)) by (nonlinear_arith)
                    requires
                        o == y * cw + (x + l),
                ;
                if i == o - 3 * cw { lemma_row_col_unique(cw, r, c, y - 3, x + l); }
                if i == o - 2 * cw { lemma_row_col_unique(cw, r, c, y - 2, x + l); }
                if i == o - cw { lemma_row_col_unique(cw, r, c, y - 1, x + l); }
                if i == o { lemma_row_col_unique(cw, r, c, y, x + l); }
                if i == o + cw { lemma_row_col_unique(cw, r, c, y + 1, x + l); }
                if i == o + 2 * cw { lemma_row_col_unique(cw, r, c, y + 2, x + l); }
            }
            lemma_segment_is_local(prev, cw, x, y, cw, 1, q[map_cell(w4, x, y)] as int, i);
        }
    }
}

/// The vertical pass changes sample `(r, c)` only through a marked edge
/// column within reach.
proof fn lemma_v_pass_is_local(
    p: Seq<u8>,
    cw: int,
    ch: int,
    rows: int,
    cells: Seq<bool>,
    w4: int,
    q: Seq<i32>,
    cols: int,
    r: int,
    c: int,
)
    requires
        p.len() >= cw * ch,
        0 <= cols,
        8 * cols + 3 <= cw,
        0 <= rows,
        4 * rows <= ch,
        0 <= r < ch,
        0 <= c < cw,
        forall|x: int|
            8 <= x <= 8 * cols && x % 8 == 0 && #[trigger] edge_at(cells, w4, x, 4 * (r / 4)) ==> !(x - 3 <= c
                <= x + 2),
    ensures
        luma_v_pass(p, cw, rows, cells, w4, q, cols).len() == p.len(),
        luma_v_pass(p, cw, rows, cells, w4, q, cols)[r * cw + c] == p[r * cw + c],
    decreases cols,
{
    if cols > 0 {
        lemma_v_pass_is_local(p, cw, ch, rows, cells, w4, q, cols - 1, r, c);
        let prev = luma_v_pass(p, cw, rows, cells, w4, q, cols - 1);
        let x = 8 * cols;
        assert(x % 8 == 0);
        if edge_at(cells, w4, x, 4 * (r / 4)) {
            assert(!(x - 3 <= c <= x + 2));
        }
        lemma_v_column_is_local(prev, cw, ch, cells, w4, q, x, rows, r, c);
    }
}

/// The horizontal pass changes sample `(r, c)` only through a marked edge
/// row within reach.
proof fn lemma_h_pass_is_local(
    p: Seq<u8>,
    cw: int,
    ch: int,
    cols: int,
    cells: Seq<bool>,
    w4: int,
    q: Seq<i32>,
    rows: int,
    r: int,
    c: int,
)
    requires
        p.len() >= cw * ch,
        0 <= rows,
        8 * rows + 3 <= ch,
        0 <= cols,
        4 * cols <= cw,
        0 <= r < ch,
        0 <= c < cw,
        forall|y: int|
            8 <= y <= 8 * rows && y % 8 == 0 && #[trigger] edge_at(cells, w4, 4 * (c / 4), y) ==> !(y - 3 <= r
                <= y + 2),
    ensures
        luma_h_pass(p, cw, cols, cells, w4, q, rows).len() == p.len(),
        luma_h_pass(p, cw, cols, cells, w4, q, rows)[r * cw + c] == p[r * cw + c],
    decreases rows,
{
    if rows > 0 {
        lemma_h_pass_is_local(p, cw, ch, cols, cells, w4, q, rows - 1, r, c);
        let prev = luma_h_pass(p, cw, cols, cells, w4, q, rows - 1);
        let y = 8 * rows;
        assert(y % 8 == 0);
        if edge_at(cells, w4, 4 * (c / 4), y) {
            assert(!(y - 3 <= r <= y + 2));
        }
        lemma_h_row_is_local(prev, cw, ch, cells, w4, q, y, cols, r, c);
    }
}

/// The luma filter changes a sample only within reach of a marked edge:
/// three samples left or two right of a marked vertical edge on the
/// sample's four-row segment, or three rows above or two below a marked
/// horizontal edge on its four-column segment. Every other sample keeps
/// its value.
pub proof fn lemma_deblock_luma_is_local(
    p: Seq<u8>,
    cw: int,
    ch: int,
    m: (Seq<bool>, Seq<bool>, nat),
    qv: Seq<i32>,
    qh: Seq<i32>,
    r: int,
    c: int,
)
    requires
        cw % 8 == 0,
        ch % 8 == 0,
        p.len() >= cw * ch,
        0 <= r < ch,
        0 <= c < cw,
        forall|x: int|
            8 <= x < cw && x % 8 == 0 && #[trigger] edge_at(m.0, cw / 4, x, 4 * (r / 4)) ==> !(x - 3 <= c <= x
                + 2),
        forall|y: int|
            8 <= y < ch && y % 8 == 0 && #[trigger] edge_at(m.1, cw / 4, 4 * (c / 4), y) ==> !(y - 3 <= r <= y
                + 2),
    ensures
        deblock_luma(p, cw, ch, m, qv, qh)[r * cw + c] == p[r * cw + c],
{
    let cols = cw / 8 - 1;
    let rows = ch / 8 - 1;
    lemma_v_pass_is_local(p, cw, ch, ch / 4, m.0, cw / 4, qv, cols, r, c);
    let vertical = luma_v_pass(p, cw, ch / 4, m.0, cw / 4, qv, cols);
    lemma_h_pass_is_local(vertical, cw, ch, cw / 4, m.1, cw / 4, qh, rows, r, c);
}

/// Entry `(r, col)` of a per-cell table `w4` cells wide.
pub open spec fn cell_q(q: Seq<i32>, w4: int, r: int, col: int) -> i32 {
    q[r * w4 + col]
}

/// The rounded mean of two quantizers.
pub open spec fn mean_of(a: i32, b: i32) -> int {
    (a + b + 1) / 2
}

/// `q` is the rounded mean of what `qp_at` gives at the two samples either
/// side of an edge.
pub open spec fn mean_qp<F: Fn(u32, u32) -> i32>(qp_at: F, x1: int, y1: int, x2: int, y2: int, q: i32) -> bool {
    exists|a: i32, b: i32|
        call_ensures(qp_at, (x1 as u32, y1 as u32), a) && call_ensures(qp_at, (x2 as u32, y2 as u32), b) && q
            == mean_of(a, b)
}

/// `q` is what `qp_c` gives for that mean.
pub open spec fn chroma_qp<F: Fn(u32, u32) -> i32, G: Fn(i32) -> i32>(
    qp_at: F,
    qp_c: G,
    x1: int,
    y1: int,
    x2: int,
    y2: int,
    q: i32,
) -> bool {
    exists|m: i32| mean_qp(qp_at, x1, y1, x2, y2, m) && call_ensures(qp_c, (m,), q)
}

/// The per-cell quantizer tables hold, at every cell an edge of the
/// picture's passes reads, what the callbacks give there: the luma edges at
/// the 8-sample grid, the chroma edges at the 16-sample grid their chroma
/// positions double to.
pub open spec fn qps_from<F: Fn(u32, u32) -> i32, G: Fn(i32) -> i32>(
    qp_at: F,
    qp_c: G,
    m: (Seq<bool>, Seq<bool>, nat),
    cw: int,
    ch: int,
    qv: Seq<i32>,
    qh: Seq<i32>,
    qcv: Seq<i32>,
    qch: Seq<i32>,
) -> bool {
    let w4 = cw / 4;
    &&& qv.len() == (cw / 4) * (ch / 4)
    &&& qh.len() == qv.len()
    &&& qcv.len() == qv.len()
    &&& qch.len() == qv.len()
    &&& forall|r: int, col: int|
        #![trigger cell_q(qv, w4, r, col)]
        0 <= r < ch / 4 && 2 <= col < cw / 4 && col % 2 == 0 && edge_at(m.0, w4, 4 * col, 4 * r) ==> mean_qp(
            qp_at,
            4 * col - 1,
            4 * r,
            4 * col,
            4 * r,
            cell_q(qv, w4, r, col),
        )
    &&& forall|r: int, col: int|
        #![trigger cell_q(qh, w4, r, col)]
        2 <= r < ch / 4 && 0 <= col < cw / 4 && r % 2 == 0 && edge_at(m.1, w4, 4 * col, 4 * r) ==> mean_qp(
            qp_at,
            4 * col,
            4 * r - 1,
            4 * col,
            4 * r,
            cell_q(qh, w4, r, col),
        )
    &&& forall|r: int, col: int|
        #![trigger cell_q(qcv, w4, r, col)]
        0 <= r < ch / 4 && 4 <= col < cw / 4 && col % 4 == 0 && r % 2 == 0 && edge_at(m.0, w4, 4 * col, 4 * r)
            ==> chroma_qp(qp_at, qp_c, 4 * col - 1, 4 * r, 4 * col, 4 * r, cell_q(qcv, w4, r, col))
    &&& forall|r: int, col: int|
        #![trigger cell_q(qch, w4, r, col)]
        4 <= r < ch / 4 && 0 <= col < cw / 4 && r % 4 == 0 && col % 2 == 0 && edge_at(m.1, w4, 4 * col, 4 * r)
            ==> chroma_qp(qp_at, qp_c, 4 * col, 4 * r - 1, 4 * col, 4 * r, cell_q(qch, w4, r, col))
}

/// The rounded mean of two quantizers, in range.
fn mean_i32(a: i32, b: i32) -> (m: i32)
    ensures
        m == mean_of(a, b),
{
    let s: i64 = a as i64 + b as i64 + 1;
    let h: i64 = if s >= 0 {
        s / 2
    } else {
        -((-s + 1) / 2)
    };
    h as i32
}

/// The mean quantizer across an edge, from the callback.
fn mean_from<F: Fn(u32, u32) -> i32>(qp_at: &F, x1: u32, y1: u32, x2: u32, y2: u32) -> (q: i32)
    requires
        forall|x: u32, y: u32| call_requires(*qp_at, (x, y)),
    ensures
        mean_qp(*qp_at, x1 as int, y1 as int, x2 as int, y2 as int, q),
{
    let a = qp_at(x1, y1);
    let b = qp_at(x2, y2);
    mean_i32(a, b)
}

/// Cells `(r, col)` of a table `w4` wide are distinct positions inside it.
proof fn lemma_cells_distinct(w4: int, h4: int, r: int, col: int, r2: int, col2: int)
    requires
        0 <= r < h4,
        0 <= col < w4,
        0 <= r2 < h4,
        0 <= col2 < w4,
    ensures
        0 <= r * w4 + col < w4 * h4,
        (r != r2 || col != col2) ==> r * w4 + col != r2 * w4 + col2,
{
    assert(0 <= r * w4 + col < w4 * h4) by (nonlinear_arith)
        requires
            0 <= r < h4,
            0 <= col < w4,
    ;
    if r != r2 {
        assert(r * w4 + col != r2 * w4 + col2) by (nonlinear_arith)
            requires
                0 <= col < w4,
                0 <= col2 < w4,
                r != r2,
        ;
    }
}

/// Filter the picture in place.
///
/// `qp_at` returns the decoder's `QpY` for a luma position, and `qp_c` maps a
/// luma QP to its chroma counterpart. Every vertical edge of the picture is
/// filtered before any horizontal one; each edge at the quantizer midway
/// between the samples either side of it.
pub fn deblock<F: Fn(u32, u32) -> i32, G: Fn(i32) -> i32>(
    y: &mut [u8],
    u: &mut [u8],
    v: &mut [u8],
    cw: u32,
    ch: u32,
    edges: &EdgeMap,
    qp_at: F,
    qp_c: G,
)
    requires
        forall|x: u32, yy: u32| call_requires(qp_at, (x, yy)),
        forall|q: i32| call_requires(qp_c, (q,)),
        cw % 8 == 0,
        ch % 8 == 0,
        old(y)@.len() >= cw * ch,
        old(u)@.len() >= (cw / 2) * (ch / 2),
        old(v)@.len() >= (cw / 2) * (ch / 2),
        edges@.2 == cw / 4,
        edges@.0.len() == (cw / 4) * (ch / 4),
        edges@.1.len() == (cw / 4) * (ch / 4),
    ensures
        exists|qv: Seq<i32>, qh: Seq<i32>, qcv: Seq<i32>, qch: Seq<i32>|
            #![trigger qps_from(qp_at, qp_c, edges@, cw as int, ch as int, qv, qh, qcv, qch)]
            {
                &&& qps_from(qp_at, qp_c, edges@, cw as int, ch as int, qv, qh, qcv, qch)
                &&& final(y)@ == deblock_luma(old(y)@, cw as int, ch as int, edges@, qv, qh)
                &&& final(u)@ == deblock_chroma(old(u)@, cw as int, ch as int, edges@, qcv, qch)
                &&& final(v)@ == deblock_chroma(old(v)@, cw as int, ch as int, edges@, qcv, qch)
            },
{
    let w4 = (cw / 4) as usize;
    let h4 = (ch / 4) as usize;
    let n = edges.left.len();
    let mut qv: Vec<i32> = vec![0i32; n];
    let mut qh: Vec<i32> = vec![0i32; n];
    let mut qcv: Vec<i32> = vec![0i32; n];
    let mut qch: Vec<i32> = vec![0i32; n];
    let ghost m = edges@;
    let mut r: usize = 0;
    while r < h4
        invariant
            forall|x: u32, yy: u32| call_requires(qp_at, (x, yy)),
            forall|q: i32| call_requires(qp_c, (q,)),
            m == edges@,
            w4 == cw / 4,
            h4 == ch / 4,
            n == w4 * h4,
            m.0.len() == n,
            m.1.len() == n,
            m.2 == w4,
            r <= h4,
            qv@.len() == n,
            qh@.len() == n,
            qcv@.len() == n,
            qch@.len() == n,
            forall|r2: int, col: int|
                #![trigger cell_q(qv@, w4 as int, r2, col)]
                0 <= r2 < r && 2 <= col < w4 && col % 2 == 0 && edge_at(m.0, w4 as int, 4 * col, 4 * r2) ==> mean_qp(
                    qp_at,
                    4 * col - 1,
                    4 * r2,
                    4 * col,
                    4 * r2,
                    cell_q(qv@, w4 as int, r2, col),
                ),
            forall|r2: int, col: int|
                #![trigger cell_q(qh@, w4 as int, r2, col)]
                2 <= r2 < r && 0 <= col < w4 && r2 % 2 == 0 && edge_at(m.1, w4 as int, 4 * col, 4 * r2) ==> mean_qp(
                    qp_at,
                    4 * col,
                    4 * r2 - 1,
                    4 * col,
                    4 * r2,
                    cell_q(qh@, w4 as int, r2, col),
                ),
            forall|r2: int, col: int|
                #![trigger cell_q(qcv@, w4 as int, r2, col)]
                0 <= r2 < r && 4 <= col < w4 && col % 4 == 0 && r2 % 2 == 0 && edge_at(m.0, w4 as int, 4 * col, 4 * r2)
                    ==> chroma_qp(qp_at, qp_c, 4 * col - 1, 4 * r2, 4 * col, 4 * r2, cell_q(qcv@, w4 as int, r2, col)),
            forall|r2: int, col: int|
                #![trigger cell_q(qch@, w4 as int, r2, col)]
                4 <= r2 < r && 0 <= col < w4 && r2 % 4 == 0 && col % 2 == 0 && edge_at(m.1, w4 as int, 4 * col, 4 * r2)
                    ==> chroma_qp(qp_at, qp_c, 4 * col, 4 * r2 - 1, 4 * col, 4 * r2, cell_q(qch@, w4 as int, r2, col)),
        decreases h4 - r,
    {
        let mut col: usize = 0;
        while col < w4
            invariant
                forall|x: u32, yy: u32| call_requires(qp_at, (x, yy)),
                forall|q: i32| call_requires(qp_c, (q,)),
                m == edges@,
                w4 == cw / 4,
                h4 == ch / 4,
                n == w4 * h4,
                m.0.len() == n,
                m.1.len() == n,
                m.2 == w4,
                r < h4,
                col <= w4,
                qv@.len() == n,
                qh@.len() == n,
                qcv@.len() == n,
                qch@.len() == n,
                forall|r2: int, c2: int|
                    #![trigger cell_q(qv@, w4 as int, r2, c2)]
                    (0 <= r2 < r || (r2 == r && c2 < col)) && 2 <= c2 < w4 && c2 % 2 == 0 && edge_at(m.0, w4 as int, 4 * c2, 4 * r2)
                        ==> mean_qp(qp_at, 4 * c2 - 1, 4 * r2, 4 * c2, 4 * r2, cell_q(qv@, w4 as int, r2, c2)),
                forall|r2: int, c2: int|
                    #![trigger cell_q(qh@, w4 as int, r2, c2)]
                    (2 <= r2 < r || (r2 == r && r >= 2 && c2 < col)) && 0 <= c2 < w4 && r2 % 2 == 0 && edge_at(m.1, w4 as int, 4 * c2, 4 * r2)
                        ==> mean_qp(qp_at, 4 * c2, 4 * r2 - 1, 4 * c2, 4 * r2, cell_q(qh@, w4 as int, r2, c2)),
                forall|r2: int, c2: int|
                    #![trigger cell_q(qcv@, w4 as int, r2, c2)]
                    (0 <= r2 < r || (r2 == r && c2 < col)) && 4 <= c2 < w4 && c2 % 4 == 0 && r2 % 2 == 0 && edge_at(m.0, w4 as int, 4 * c2, 4 * r2)
                        ==> chroma_qp(qp_at, qp_c, 4 * c2 - 1, 4 * r2, 4 * c2, 4 * r2, cell_q(qcv@, w4 as int, r2, c2)),
                forall|r2: int, c2: int|
                    #![trigger cell_q(qch@, w4 as int, r2, c2)]
                    (4 <= r2 < r || (r2 == r && r >= 4 && c2 < col)) && 0 <= c2 < w4 && r2 % 4 == 0 && c2 % 2 == 0 && edge_at(m.1, w4 as int, 4 * c2, 4 * r2)
                        ==> chroma_qp(qp_at, qp_c, 4 * c2, 4 * r2 - 1, 4 * c2, 4 * r2, cell_q(qch@, w4 as int, r2, c2)),
            decreases w4 - col,
        {
            proof {
                lemma_cells_distinct(w4 as int, h4 as int, r as int, col as int, 0, 0);
            }
            let c = r * w4 + col;
            let x = (4 * col) as u32;
            let yy = (4 * r) as u32;
            let ghost (bv, bh, bcv, bch) = (qv@, qh@, qcv@, qch@);
            if col >= 2 && col % 2 == 0 && edges.has_left(x, yy) {
                let q = mean_from(&qp_at, x - 1, yy, x, yy);
                qv.set(c, q);
                assert(cell_q(qv@, w4 as int, r as int, col as int) == q);
                assert(mean_qp(qp_at, 4 * col - 1, 4 * r, 4 * col, 4 * r, q));
                if col >= 4 && col % 4 == 0 && r % 2 == 0 {
                    let q2 = mean_from(&qp_at, x - 1, yy, x, yy);
                    let qc = qp_c(q2);
                    qcv.set(c, qc);
                    assert(cell_q(qcv@, w4 as int, r as int, col as int) == qc);
                    assert(chroma_qp(qp_at, qp_c, 4 * col - 1, 4 * r, 4 * col, 4 * r, qc));
                }
            }
            if r >= 2 && r % 2 == 0 && edges.has_top(x, yy) {
                let q = mean_from(&qp_at, x, yy - 1, x, yy);
                qh.set(c, q);
                assert(cell_q(qh@, w4 as int, r as int, col as int) == q);
                assert(mean_qp(qp_at, 4 * col, 4 * r - 1, 4 * col, 4 * r, q));
                if r >= 4 && r % 4 == 0 && col % 2 == 0 {
                    let q2 = mean_from(&qp_at, x, yy - 1, x, yy);
                    let qc = qp_c(q2);
                    qch.set(c, qc);
                    assert(cell_q(qch@, w4 as int, r as int, col as int) == qc);
                    assert(chroma_qp(qp_at, qp_c, 4 * col, 4 * r - 1, 4 * col, 4 * r, qc));
                }
            }
            proof {
                assert forall|r2: int, c2: int|
                    0 <= r2 < h4 && 0 <= c2 < w4 && (r2 != r || c2 != col) implies
                        cell_q(qv@, w4 as int, r2, c2) == cell_q(bv, w4 as int, r2, c2)
                        && cell_q(qh@, w4 as int, r2, c2) == cell_q(bh, w4 as int, r2, c2)
                        && cell_q(qcv@, w4 as int, r2, c2) == cell_q(bcv, w4 as int, r2, c2)
                        && cell_q(qch@, w4 as int, r2, c2) == cell_q(bch, w4 as int, r2, c2) by {
                    lemma_cells_distinct(w4 as int, h4 as int, r2, c2, r as int, col as int);
                }
                assert forall|r2: int, c2: int|
                    (0 <= r2 < r || (r2 == r && c2 <= col)) && 2 <= c2 < w4 && c2 % 2 == 0 && edge_at(m.0, w4 as int, 4 * c2, 4 * r2)
                    implies mean_qp(qp_at, 4 * c2 - 1, 4 * r2, 4 * c2, 4 * r2, cell_q(qv@, w4 as int, r2, c2)) by {
                    if r2 != r || c2 != col {
                        lemma_cells_distinct(w4 as int, h4 as int, r2, c2, r as int, col as int);
                        assert(cell_q(qv@, w4 as int, r2, c2) == cell_q(bv, w4 as int, r2, c2));
                    }
                }
                assert forall|r2: int, c2: int|
                    (2 <= r2 < r || (r2 == r && r >= 2 && c2 <= col)) && 0 <= c2 < w4 && r2 % 2 == 0 && edge_at(m.1, w4 as int, 4 * c2, 4 * r2)
                    implies mean_qp(qp_at, 4 * c2, 4 * r2 - 1, 4 * c2, 4 * r2, cell_q(qh@, w4 as int, r2, c2)) by {
                    if r2 != r || c2 != col {
                        lemma_cells_distinct(w4 as int, h4 as int, r2, c2, r as int, col as int);
                        assert(cell_q(qh@, w4 as int, r2, c2) == cell_q(bh, w4 as int, r2, c2));
                    }
                }
                assert forall|r2: int, c2: int|
                    (0 <= r2 < r || (r2 == r && c2 <= col)) && 4 <= c2 < w4 && c2 % 4 == 0 && r2 % 2 == 0 && edge_at(m.0, w4 as int, 4 * c2, 4 * r2)
                    implies chroma_qp(qp_at, qp_c, 4 * c2 - 1, 4 * r2, 4 * c2, 4 * r2, cell_q(qcv@, w4 as int, r2, c2)) by {
                    if r2 != r || c2 != col {
                        lemma_cells_distinct(w4 as int, h4 as int, r2, c2, r as int, col as int);
                        assert(cell_q(qcv@, w4 as int, r2, c2) == cell_q(bcv, w4 as int, r2, c2));
                    }
                }
                assert forall|r2: int, c2: int|
                    (4 <= r2 < r || (r2 == r && r >= 4 && c2 <= col)) && 0 <= c2 < w4 && r2 % 4 == 0 && c2 % 2 == 0 && edge_at(m.1, w4 as int, 4 * c2, 4 * r2)
                    implies chroma_qp(qp_at, qp_c, 4 * c2, 4 * r2 - 1, 4 * c2, 4 * r2, cell_q(qch@, w4 as int, r2, c2)) by {
                    if r2 != r || c2 != col {
                        lemma_cells_distinct(w4 as int, h4 as int, r2, c2, r as int, col as int);
                        assert(cell_q(qch@, w4 as int, r2, c2) == cell_q(bch, w4 as int, r2, c2));
                    }
                }
            }
            col = col + 1;
        }
        r = r + 1;
    }
    deblock_with_qps(y, u, v, cw, ch, edges, qv.as_slice(), qh.as_slice(), qcv.as_slice(), qch.as_slice());
    proof {
        assert(qps_from(qp_at, qp_c, edges@, cw as int, ch as int, qv@, qh@, qcv@, qch@));
    }
}

} // verus!
