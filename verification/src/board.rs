//! The board model: a fixed `rows x cols` grid of cells, mine placement
//! deferred to the first reveal (first-click safety), flood-fill reveal of
//! zero-count regions, flag toggling, and win/loss detection.
//!
//! The model is pure: it performs no rendering and no input handling. Its
//! mathematical view is a [`BoardView`], and every operation is specified
//! against that view.

use vstd::arithmetic::div_mod::lemma_fundamental_div_mod_converse;
use vstd::prelude::*;

verus! {

/// Upper bound on each board dimension. It keeps every index and pixel
/// computation comfortably inside the machine integer types.
pub const MAX_DIM: usize = 4096;

/// What the player can see of a cell.
#[derive(Clone, Copy, PartialEq, Eq, Structural, Debug)]
pub enum Visibility {
    Hidden,
    Revealed,
    Flagged,
}

/// The single authoritative game state of a board.
#[derive(Clone, Copy, PartialEq, Eq, Structural, Debug)]
pub enum GameState {
    NotStarted,
    InProgress,
    Won,
    Lost,
}

/// Errors of the board operations.
#[derive(Clone, Copy, PartialEq, Eq, Structural, Debug)]
pub enum BoardError {
    /// Impossible mine count or dimensions at construction.
    InvalidConfiguration,
    /// A coordinate outside the grid was passed to an accessor or mutator.
    OutOfBounds,
}

/// Summary of what a `reveal` or `toggle_flag` call did.
#[derive(Clone, Copy, PartialEq, Eq, Structural, Debug)]
pub enum RevealOutcome {
    /// The call was a no-op: the cell was already revealed, was flagged,
    /// or the game is over.
    NoChange,
    /// At least one cell changed visibility and no mine was hit.
    Changed,
    /// A mine was revealed; the game is lost.
    Exploded,
}

/// One cell of the grid.
#[derive(Clone, Copy, PartialEq, Eq, Structural, Debug)]
pub struct Cell {
    pub has_mine: bool,
    /// Number of mines among the up-to-8 neighbors; cached at placement time.
    pub adjacent: u8,
    pub visibility: Visibility,
}

/// Read-only snapshot of a cell. `known` is true only when the cell is
/// revealed or the game is over; otherwise `has_mine` and `adjacent` are
/// zeroed so a hidden mine layout never leaks while a game is in progress.
#[derive(Clone, Copy, PartialEq, Eq, Structural, Debug)]
pub struct CellSnapshot {
    pub visibility: Visibility,
    pub known: bool,
    pub has_mine: bool,
    pub adjacent: u8,
}

/// The mathematical view of a board.
pub struct BoardView {
    pub rows: int,
    pub cols: int,
    pub mine_count: int,
    /// Row-major: the cell at `(r, c)` is `cells[r * cols + c]`.
    pub cells: Seq<Cell>,
    pub state: GameState,
    pub placed: bool,
}

pub open spec fn in_range(v: BoardView, r: int, c: int) -> bool {
    0 <= r < v.rows && 0 <= c < v.cols
}

pub open spec fn cell_of(v: BoardView, r: int, c: int) -> Cell {
    v.cells[r * v.cols + c]
}

/// 8-connected neighborhood, excluding the cell itself.
pub open spec fn is_adjacent(r1: int, c1: int, r2: int, c2: int) -> bool {
    -1 <= r1 - r2 <= 1 && -1 <= c1 - c2 <= 1 && !(r1 == r2 && c1 == c2)
}

/// `(r, c)` is inside a `rows x cols` grid and its cell carries a mine.
pub open spec fn grid_mine_at(cells: Seq<Cell>, rows: int, cols: int, r: int, c: int) -> bool {
    0 <= r < rows && 0 <= c < cols && cells[r * cols + c].has_mine
}

pub open spec fn grid_mine_ind(cells: Seq<Cell>, rows: int, cols: int, r: int, c: int) -> nat {
    if grid_mine_at(cells, rows, cols, r, c) { 1 } else { 0 }
}

/// Number of mines among the up-to-8 neighbors of `(r, c)`.
pub open spec fn grid_adj_mines(cells: Seq<Cell>, rows: int, cols: int, r: int, c: int) -> nat {
    grid_mine_ind(cells, rows, cols, r - 1, c - 1) + grid_mine_ind(cells, rows, cols, r - 1, c)
        + grid_mine_ind(cells, rows, cols, r - 1, c + 1)
        + grid_mine_ind(cells, rows, cols, r, c - 1) + grid_mine_ind(cells, rows, cols, r, c + 1)
        + grid_mine_ind(cells, rows, cols, r + 1, c - 1) + grid_mine_ind(cells, rows, cols, r + 1, c)
        + grid_mine_ind(cells, rows, cols, r + 1, c + 1)
}

pub open spec fn mine_at(v: BoardView, r: int, c: int) -> bool {
    grid_mine_at(v.cells, v.rows, v.cols, r, c)
}

/// Number of mines among the 8 neighbors of `(r, c)`.
pub open spec fn adj_mines(v: BoardView, r: int, c: int) -> nat {
    grid_adj_mines(v.cells, v.rows, v.cols, r, c)
}

pub open spec fn count_mines(cells: Seq<Cell>) -> nat
    decreases cells.len(),
{
    if cells.len() == 0 {
        0
    } else {
        count_mines(cells.drop_last()) + if cells.last().has_mine { 1nat } else { 0nat }
    }
}

pub open spec fn count_revealed(cells: Seq<Cell>) -> nat
    decreases cells.len(),
{
    if cells.len() == 0 {
        0
    } else {
        count_revealed(cells.drop_last())
            + if cells.last().visibility == Visibility::Revealed { 1nat } else { 0nat }
    }
}

/// Every non-mine cell is revealed: the winning condition.
pub open spec fn all_safe_revealed(v: BoardView) -> bool {
    forall|i: int| 0 <= i < v.cells.len() && !v.cells[i].has_mine
        ==> #[trigger] v.cells[i].visibility == Visibility::Revealed
}

pub open spec fn no_mine_revealed(v: BoardView) -> bool {
    forall|i: int| 0 <= i < v.cells.len() && v.cells[i].has_mine
        ==> #[trigger] v.cells[i].visibility != Visibility::Revealed
}

pub open spec fn all_mines_revealed(v: BoardView) -> bool {
    forall|i: int| 0 <= i < v.cells.len() && v.cells[i].has_mine
        ==> #[trigger] v.cells[i].visibility == Visibility::Revealed
}

/// Every cached `adjacent` count agrees with the actual mine layout.
pub open spec fn counts_correct(v: BoardView) -> bool {
    forall|r: int, c: int| #[trigger] in_range(v, r, c)
        ==> cell_of(v, r, c).adjacent == adj_mines(v, r, c)
}

/// Well-formedness of a board view: dimension and mine-count bounds, the
/// cached data consistent with the layout, and the game state faithful to
/// the visible cells.
pub open spec fn board_wf(v: BoardView) -> bool {
    &&& 1 <= v.rows <= MAX_DIM as int
    &&& 1 <= v.cols <= MAX_DIM as int
    &&& v.cells.len() == v.rows * v.cols
    &&& 1 <= v.mine_count < v.rows * v.cols
    &&& (v.placed ==> {
        &&& count_mines(v.cells) == v.mine_count
        &&& counts_correct(v)
        &&& v.state != GameState::NotStarted
    })
    &&& (!v.placed ==> {
        &&& count_mines(v.cells) == 0
        &&& v.state == GameState::NotStarted
        &&& count_revealed(v.cells) == 0
        &&& forall|i: int| 0 <= i < v.cells.len()
            ==> #[trigger] v.cells[i].visibility != Visibility::Revealed
    })
    &&& (v.state == GameState::Won ==> v.placed && all_safe_revealed(v) && no_mine_revealed(v))
    &&& ((v.state == GameState::InProgress || v.state == GameState::NotStarted)
        ==> !all_safe_revealed(v) && no_mine_revealed(v))
    &&& (v.state == GameState::Lost ==> v.placed && all_mines_revealed(v) && !all_safe_revealed(v))
}

/// A flag toggle of `(r, c)` is a no-op: the game is over or the cell is
/// revealed.
pub open spec fn flag_blocked(v: BoardView, r: int, c: int) -> bool {
    ||| v.state == GameState::Won
    ||| v.state == GameState::Lost
    ||| cell_of(v, r, c).visibility == Visibility::Revealed
}

/// Dimensions, mine budget and cell count are fixed for a session.
pub open spec fn same_config(pre: BoardView, post: BoardView) -> bool {
    &&& post.rows == pre.rows
    &&& post.cols == pre.cols
    &&& post.mine_count == pre.mine_count
    &&& post.cells.len() == pre.cells.len()
}

/// The mine layout and the cached counts are untouched.
pub open spec fn mines_unchanged(pre: BoardView, post: BoardView) -> bool {
    forall|i: int| 0 <= i < pre.cells.len() ==> (#[trigger] post.cells[i]).has_mine
        == pre.cells[i].has_mine && post.cells[i].adjacent == pre.cells[i].adjacent
}

/// Revealed cells stay revealed, and the only visibility transition a
/// reveal performs is towards `Revealed`.
pub open spec fn reveal_monotonic(pre: BoardView, post: BoardView) -> bool {
    forall|i: int| 0 <= i < pre.cells.len() ==> {
        &&& ((#[trigger] pre.cells[i]).visibility == Visibility::Revealed ==> post.cells[i].visibility
            == Visibility::Revealed)
        &&& (post.cells[i].visibility != pre.cells[i].visibility ==> post.cells[i].visibility
            == Visibility::Revealed)
    }
}

/// A reveal of `(r, c)` is a no-op: the game is over, or the cell is
/// flagged or already revealed.
pub open spec fn reveal_blocked(v: BoardView, r: int, c: int) -> bool {
    ||| v.state == GameState::Won
    ||| v.state == GameState::Lost
    ||| cell_of(v, r, c).visibility != Visibility::Hidden
}

/// `(r, c)` went from unrevealed to revealed in this call.
pub open spec fn newly_revealed(pre: BoardView, post: BoardView, r: int, c: int) -> bool {
    &&& in_range(pre, r, c)
    &&& cell_of(post, r, c).visibility == Visibility::Revealed
    &&& cell_of(pre, r, c).visibility != Visibility::Revealed
}

/// No in-range neighbor of `(r, c)` is still hidden.
#[verifier::opaque]
pub open spec fn all_neighbors_opened(cur: BoardView, r: int, c: int) -> bool {
    forall|r2: int, c2: int| in_range(cur, r2, c2) && #[trigger] is_adjacent(r, c, r2, c2)
        ==> cell_of(cur, r2, c2).visibility != Visibility::Hidden
}

/// Flood fill is exhaustive: every zero-count safe cell revealed by a call
/// has its whole neighborhood opened afterwards.
pub open spec fn zero_region_closed(pre: BoardView, post: BoardView) -> bool {
    forall|r: int, c: int| #[trigger] newly_revealed(pre, post, r, c) && !cell_of(
        post,
        r,
        c,
    ).has_mine && cell_of(post, r, c).adjacent == 0 ==> all_neighbors_opened(post, r, c)
}

/// Flood fill never jumps: every cell revealed by a call, other than the
/// clicked one, borders a zero-count safe cell revealed by the same call.
/// Together with `zero_region_closed` this pins the revealed set to the
/// clicked cell's zero-count region plus that region's border.
#[verifier::opaque]
pub open spec fn revealed_connected(pre: BoardView, post: BoardView, tr: int, tc: int) -> bool {
    forall|r: int, c: int| #[trigger] newly_revealed(pre, post, r, c) && !(r == tr && c == tc)
        ==> exists|r2: int, c2: int| #[trigger] is_adjacent(r, c, r2, c2) && newly_revealed(
            pre,
            post,
            r2,
            c2,
        ) && !cell_of(post, r2, c2).has_mine && cell_of(post, r2, c2).adjacent == 0
}

/// `(r, c)` occurs in the coordinate list.
pub open spec fn listed(coords: Seq<(usize, usize)>, r: int, c: int) -> bool {
    exists|k: int| 0 <= k < coords.len() && (#[trigger] coords[k]).0 == r && coords[k].1 == c
}

/// The change list holds exactly the coordinates whose visibility differs
/// between `pre` and `post`, each once.
#[verifier::opaque]
pub open spec fn changes_coords_exact(
    pre: BoardView,
    post: BoardView,
    changes: Seq<(usize, usize)>,
) -> bool {
    &&& forall|k: int| 0 <= k < changes.len() ==> in_range(
        pre,
        (#[trigger] changes[k]).0 as int,
        changes[k].1 as int,
    ) && cell_of(post, changes[k].0 as int, changes[k].1 as int).visibility != cell_of(
        pre,
        changes[k].0 as int,
        changes[k].1 as int,
    ).visibility
    &&& forall|r: int, c: int| in_range(pre, r, c) && cell_of(post, r, c).visibility != (
    #[trigger] cell_of(pre, r, c)).visibility ==> listed(changes, r, c)
    &&& forall|k1: int, k2: int| 0 <= k1 < k2 < changes.len() ==> !((#[trigger] changes[k1]).0 == (
    #[trigger] changes[k2]).0 && changes[k1].1 == changes[k2].1)
}

/// The view with the same configuration but other cells.
pub open spec fn with_cells(v: BoardView, cells: Seq<Cell>) -> BoardView {
    BoardView { cells, ..v }
}

/// The offsets of the 8 neighbors, in the order the flood fill and the
/// controller's chord visit them.
pub open spec fn noff(d: int) -> (int, int) {
    if d == 0 {
        (-1, -1)
    } else if d == 1 {
        (-1, 0)
    } else if d == 2 {
        (-1, 1)
    } else if d == 3 {
        (0, -1)
    } else if d == 4 {
        (0, 1)
    } else if d == 5 {
        (1, -1)
    } else if d == 6 {
        (1, 0)
    } else {
        (1, 1)
    }
}

/// Every queued coordinate is a freshly revealed, zero-count, safe cell.
#[verifier::opaque]
spec fn queue_ok(base: BoardView, cur: BoardView, queue: Seq<(usize, usize)>) -> bool {
    forall|k: int| 0 <= k < queue.len() ==> {
        let r = (#[trigger] queue[k]).0 as int;
        let c = queue[k].1 as int;
        &&& in_range(cur, r, c)
        &&& newly_revealed(base, cur, r, c)
        &&& !cell_of(cur, r, c).has_mine
        &&& cell_of(cur, r, c).adjacent == 0
    }
}

/// Every freshly revealed zero-count safe cell is still queued for
/// expansion, or already has its whole neighborhood opened - except for one
/// exempted coordinate (the cell being expanded right now).
#[verifier::opaque]
spec fn frontier_closed_except(
    base: BoardView,
    cur: BoardView,
    queue: Seq<(usize, usize)>,
    er: int,
    ec: int,
) -> bool {
    forall|r: int, c: int| #[trigger] newly_revealed(base, cur, r, c) && !cell_of(
        cur,
        r,
        c,
    ).has_mine && cell_of(cur, r, c).adjacent == 0 ==> (r == er && c == ec) || listed(queue, r, c)
        || all_neighbors_opened(cur, r, c)
}

/// The working invariant of the flood fill, relating the state right after
/// mine placement (`base`) to the current state.
spec fn flood_inv(
    base: BoardView,
    cur: BoardView,
    queue: Seq<(usize, usize)>,
    changes: Seq<(usize, usize)>,
    tr: int,
    tc: int,
) -> bool {
    &&& same_config(base, cur)
    &&& cur.state == base.state
    &&& cur.placed == base.placed
    &&& mines_unchanged(base, cur)
    &&& reveal_monotonic(base, cur)
    &&& no_mine_revealed(cur)
    &&& changes_coords_exact(base, cur, changes)
    &&& queue_ok(base, cur, queue)
    &&& frontier_closed_except(base, cur, queue, -1, -1)
    &&& revealed_connected(base, cur, tr, tc)
}

/// Opening a hidden neighbor of a zero-count cell: the neighbor is safe,
/// every other cell is untouched, and the pointwise relations to `base`
/// survive.
#[verifier::spinoff_prover]
proof fn lemma_open_basics(base: BoardView, before: Seq<Cell>, qr: int, qc: int, nr: usize, nc: usize)
    requires
        board_wf(base),
        base.placed,
        before.len() == base.rows * base.cols,
        0 <= qr < base.rows,
        0 <= qc < base.cols,
        mines_unchanged(base, with_cells(base, before)),
        reveal_monotonic(base, with_cells(base, before)),
        no_mine_revealed(with_cells(base, before)),
        grid_adj_mines(base.cells, base.rows, base.cols, qr, qc) == 0,
        is_adjacent(qr, qc, nr as int, nc as int),
        nr < base.rows,
        nc < base.cols,
        cell_of(with_cells(base, before), nr as int, nc as int).visibility == Visibility::Hidden,
    ensures
        ({
            let ni = nr as int * base.cols + nc as int;
            let ncell = before[ni];
            let cur = with_cells(
                base,
                before.update(
                    ni,
                    Cell {
                        has_mine: ncell.has_mine,
                        adjacent: ncell.adjacent,
                        visibility: Visibility::Revealed,
                    },
                ),
            );
            &&& 0 <= ni < before.len()
            &&& !ncell.has_mine
            &&& cell_of(base, nr as int, nc as int).visibility == Visibility::Hidden
            &&& mines_unchanged(base, cur)
            &&& reveal_monotonic(base, cur)
            &&& no_mine_revealed(cur)
            &&& cell_of(cur, nr as int, nc as int).visibility == Visibility::Revealed
            &&& forall|r2: int, c2: int| in_range(base, r2, c2) && !(r2 == nr as int && c2
                == nc as int) ==> cell_of(cur, r2, c2) == #[trigger] cell_of(
                with_cells(base, before),
                r2,
                c2,
            )
        }),
{
    let rows = base.rows;
    let cols = base.cols;
    let prev = with_cells(base, before);
    let ni = nr as int * cols + nc as int;
    lemma_idx_bounds(rows, cols, nr as int, nc as int);
    lemma_idx_bounds(rows, cols, qr, qc);
    let ncell = before[ni];
    let cur = with_cells(
        base,
        before.update(
            ni,
            Cell { has_mine: ncell.has_mine, adjacent: ncell.adjacent, visibility: Visibility::Revealed },
        ),
    );
    // A neighbor of a zero-count cell carries no mine.
    let dr = nr as int - qr;
    let dc = nc as int - qc;
    assert(grid_mine_ind(base.cells, rows, cols, nr as int, nc as int) == 0) by {
        if dr == -1 && dc == -1 {
            assert(nr as int == qr - 1 && nc as int == qc - 1);
        } else if dr == -1 && dc == 0 {
            assert(nr as int == qr - 1 && nc as int == qc);
        } else if dr == -1 && dc == 1 {
            assert(nr as int == qr - 1 && nc as int == qc + 1);
        } else if dr == 0 && dc == -1 {
            assert(nr as int == qr && nc as int == qc - 1);
        } else if dr == 0 && dc == 1 {
            assert(nr as int == qr && nc as int == qc + 1);
        } else if dr == 1 && dc == -1 {
            assert(nr as int == qr + 1 && nc as int == qc - 1);
        } else if dr == 1 && dc == 0 {
            assert(nr as int == qr + 1 && nc as int == qc);
        } else {
            assert(dr == 1 && dc == 1);
            assert(nr as int == qr + 1 && nc as int == qc + 1);
        }
    }
    assert(!base.cells[ni].has_mine);
    assert(!ncell.has_mine);
    assert forall|r2: int, c2: int| in_range(base, r2, c2) && !(r2 == nr as int && c2 == nc as int)
        implies cell_of(cur, r2, c2) == #[trigger] cell_of(prev, r2, c2) by {
        lemma_idx_bounds(rows, cols, r2, c2);
        if r2 * cols + c2 == ni {
            lemma_idx_injective(cols, r2, c2, nr as int, nc as int);
        }
    }
}

/// Opening one hidden cell keeps the change list exact once its coordinate
/// is appended.
#[verifier::spinoff_prover]
proof fn lemma_open_changes(
    base: BoardView,
    before: Seq<Cell>,
    changes0: Seq<(usize, usize)>,
    nr: usize,
    nc: usize,
)
    requires
        board_wf(base),
        before.len() == base.rows * base.cols,
        nr < base.rows,
        nc < base.cols,
        changes_coords_exact(base, with_cells(base, before), changes0),
        cell_of(with_cells(base, before), nr as int, nc as int).visibility == Visibility::Hidden,
        cell_of(base, nr as int, nc as int).visibility == Visibility::Hidden,
        forall|r2: int, c2: int| in_range(base, r2, c2) && !(r2 == nr as int && c2 == nc as int)
            ==> cell_of(
            with_cells(
                base,
                before.update(
                    nr as int * base.cols + nc as int,
                    Cell {
                        has_mine: before[nr as int * base.cols + nc as int].has_mine,
                        adjacent: before[nr as int * base.cols + nc as int].adjacent,
                        visibility: Visibility::Revealed,
                    },
                ),
            ),
            r2,
            c2,
        ) == #[trigger] cell_of(with_cells(base, before), r2, c2),
    ensures
        ({
            let ni = nr as int * base.cols + nc as int;
            let ncell = before[ni];
            let cur = with_cells(
                base,
                before.update(
                    ni,
                    Cell {
                        has_mine: ncell.has_mine,
                        adjacent: ncell.adjacent,
                        visibility: Visibility::Revealed,
                    },
                ),
            );
            changes_coords_exact(base, cur, changes0.push((nr, nc)))
        }),
{
    reveal(changes_coords_exact);
    let rows = base.rows;
    let cols = base.cols;
    let prev = with_cells(base, before);
    let ni = nr as int * cols + nc as int;
    lemma_idx_bounds(rows, cols, nr as int, nc as int);
    let ncell = before[ni];
    let cur = with_cells(
        base,
        before.update(
            ni,
            Cell { has_mine: ncell.has_mine, adjacent: ncell.adjacent, visibility: Visibility::Revealed },
        ),
    );
    let changes1 = changes0.push((nr, nc));
    // No earlier entry names (nr, nc): it had not changed yet.
    assert forall|k: int| 0 <= k < changes0.len() implies !((#[trigger] changes0[k]).0 == nr
        && changes0[k].1 == nc) by {
        if changes0[k].0 == nr && changes0[k].1 == nc {
            assert(cell_of(prev, nr as int, nc as int).visibility != cell_of(
                base,
                nr as int,
                nc as int,
            ).visibility);
        }
    }
    // Completeness.
    assert forall|r2: int, c2: int| in_range(base, r2, c2) && cell_of(cur, r2, c2).visibility != (
    #[trigger] cell_of(base, r2, c2)).visibility implies listed(changes1, r2, c2) by {
        if r2 == nr as int && c2 == nc as int {
            assert(changes1[changes1.len() - 1] == (nr, nc));
        } else {
            assert(cell_of(prev, r2, c2).visibility != cell_of(base, r2, c2).visibility);
            assert(listed(changes0, r2, c2));
            let k = choose|k: int| 0 <= k < changes0.len() && (#[trigger] changes0[k]).0 == r2
                && changes0[k].1 == c2;
            assert(changes1[k] == changes0[k]);
        }
    }
    // Every entry still names a changed cell.
    assert forall|k: int| 0 <= k < changes1.len() implies in_range(
        base,
        (#[trigger] changes1[k]).0 as int,
        changes1[k].1 as int,
    ) && cell_of(cur, changes1[k].0 as int, changes1[k].1 as int).visibility != cell_of(
        base,
        changes1[k].0 as int,
        changes1[k].1 as int,
    ).visibility by {
        if k < changes0.len() {
            assert(changes1[k] == changes0[k]);
            assert(cell_of(cur, changes0[k].0 as int, changes0[k].1 as int) == cell_of(
                prev,
                changes0[k].0 as int,
                changes0[k].1 as int,
            ));
        } else {
            assert(changes1[k] == (nr, nc));
        }
    }
}

/// Opening one hidden cell keeps the queue sound, with the cell enqueued
/// when its own count is zero.
#[verifier::spinoff_prover]
proof fn lemma_open_queue(
    base: BoardView,
    before: Seq<Cell>,
    queue0: Seq<(usize, usize)>,
    nr: usize,
    nc: usize,
)
    requires
        board_wf(base),
        before.len() == base.rows * base.cols,
        nr < base.rows,
        nc < base.cols,
        queue_ok(base, with_cells(base, before), queue0),
        !before[nr as int * base.cols + nc as int].has_mine,
        cell_of(with_cells(base, before), nr as int, nc as int).visibility == Visibility::Hidden,
        cell_of(base, nr as int, nc as int).visibility == Visibility::Hidden,
        forall|r2: int, c2: int| in_range(base, r2, c2) && !(r2 == nr as int && c2 == nc as int)
            ==> cell_of(
            with_cells(
                base,
                before.update(
                    nr as int * base.cols + nc as int,
                    Cell {
                        has_mine: before[nr as int * base.cols + nc as int].has_mine,
                        adjacent: before[nr as int * base.cols + nc as int].adjacent,
                        visibility: Visibility::Revealed,
                    },
                ),
            ),
            r2,
            c2,
        ) == #[trigger] cell_of(with_cells(base, before), r2, c2),
    ensures
        ({
            let ni = nr as int * base.cols + nc as int;
            let ncell = before[ni];
            let cur = with_cells(
                base,
                before.update(
                    ni,
                    Cell {
                        has_mine: ncell.has_mine,
                        adjacent: ncell.adjacent,
                        visibility: Visibility::Revealed,
                    },
                ),
            );
            let queue1 = if ncell.adjacent == 0 {
                queue0.push((nr, nc))
            } else {
                queue0
            };
            queue_ok(base, cur, queue1)
        }),
{
    reveal(queue_ok);
    let rows = base.rows;
    let cols = base.cols;
    let prev = with_cells(base, before);
    let ni = nr as int * cols + nc as int;
    lemma_idx_bounds(rows, cols, nr as int, nc as int);
    let ncell = before[ni];
    let cur = with_cells(
        base,
        before.update(
            ni,
            Cell { has_mine: ncell.has_mine, adjacent: ncell.adjacent, visibility: Visibility::Revealed },
        ),
    );
    let queue1 = if ncell.adjacent == 0 {
        queue0.push((nr, nc))
    } else {
        queue0
    };
    assert forall|k: int| 0 <= k < queue1.len() implies {
        let r = (#[trigger] queue1[k]).0 as int;
        let c = queue1[k].1 as int;
        &&& in_range(cur, r, c)
        &&& newly_revealed(base, cur, r, c)
        &&& !cell_of(cur, r, c).has_mine
        &&& cell_of(cur, r, c).adjacent == 0
    } by {
        if k < queue0.len() {
            assert(queue1[k] == queue0[k]);
            let r = queue0[k].0 as int;
            let c = queue0[k].1 as int;
            if !(r == nr as int && c == nc as int) {
                assert(cell_of(cur, r, c) == cell_of(prev, r, c));
            }
        } else {
            assert(queue1[k] == (nr, nc));
            assert(ncell.adjacent == 0);
        }
    }
}

/// Opening one hidden cell keeps the frontier obligation closed.
#[verifier::spinoff_prover]
#[verifier::rlimit(30)]
proof fn lemma_open_frontier(
    base: BoardView,
    before: Seq<Cell>,
    queue0: Seq<(usize, usize)>,
    qr: int,
    qc: int,
    nr: usize,
    nc: usize,
)
    requires
        board_wf(base),
        before.len() == base.rows * base.cols,
        0 <= qr < base.rows,
        0 <= qc < base.cols,
        nr < base.rows,
        nc < base.cols,
        frontier_closed_except(base, with_cells(base, before), queue0, qr, qc),
        cell_of(with_cells(base, before), nr as int, nc as int).visibility == Visibility::Hidden,
        cell_of(base, nr as int, nc as int).visibility == Visibility::Hidden,
        forall|r2: int, c2: int| in_range(base, r2, c2) && !(r2 == nr as int && c2 == nc as int)
            ==> cell_of(
            with_cells(
                base,
                before.update(
                    nr as int * base.cols + nc as int,
                    Cell {
                        has_mine: before[nr as int * base.cols + nc as int].has_mine,
                        adjacent: before[nr as int * base.cols + nc as int].adjacent,
                        visibility: Visibility::Revealed,
                    },
                ),
            ),
            r2,
            c2,
        ) == #[trigger] cell_of(with_cells(base, before), r2, c2),
    ensures
        ({
            let ni = nr as int * base.cols + nc as int;
            let ncell = before[ni];
            let cur = with_cells(
                base,
                before.update(
                    ni,
                    Cell {
                        has_mine: ncell.has_mine,
                        adjacent: ncell.adjacent,
                        visibility: Visibility::Revealed,
                    },
                ),
            );
            let queue1 = if ncell.adjacent == 0 {
                queue0.push((nr, nc))
            } else {
                queue0
            };
            frontier_closed_except(base, cur, queue1, qr, qc)
        }),
{
    reveal(frontier_closed_except);
    reveal(all_neighbors_opened);
    let rows = base.rows;
    let cols = base.cols;
    let prev = with_cells(base, before);
    let ni = nr as int * cols + nc as int;
    lemma_idx_bounds(rows, cols, nr as int, nc as int);
    let ncell = before[ni];
    let cur = with_cells(
        base,
        before.update(
            ni,
            Cell { has_mine: ncell.has_mine, adjacent: ncell.adjacent, visibility: Visibility::Revealed },
        ),
    );
    let queue1 = if ncell.adjacent == 0 {
        queue0.push((nr, nc))
    } else {
        queue0
    };
    assert forall|r2: int, c2: int| #[trigger] newly_revealed(base, cur, r2, c2) && !cell_of(
        cur,
        r2,
        c2,
    ).has_mine && cell_of(cur, r2, c2).adjacent == 0 implies (r2 == qr && c2 == qc) || listed(
        queue1,
        r2,
        c2,
    ) || all_neighbors_opened(cur, r2, c2) by {
        if r2 == nr as int && c2 == nc as int {
            assert(ncell.adjacent == 0);
            assert(queue1[queue1.len() - 1] == (nr, nc));
            assert(listed(queue1, r2, c2));
        } else {
            assert(cell_of(cur, r2, c2) == cell_of(prev, r2, c2));
            assert(newly_revealed(base, prev, r2, c2));
            if listed(queue0, r2, c2) {
                let k = choose|k: int| 0 <= k < queue0.len() && (#[trigger] queue0[k]).0 == r2
                    && queue0[k].1 == c2;
                assert(queue1[k] == queue0[k]);
                assert(listed(queue1, r2, c2));
            } else if all_neighbors_opened(prev, r2, c2) {
                assert forall|r3: int, c3: int| in_range(cur, r3, c3) && #[trigger] is_adjacent(
                    r2,
                    c2,
                    r3,
                    c3,
                ) implies cell_of(cur, r3, c3).visibility != Visibility::Hidden by {
                    if !(r3 == nr as int && c3 == nc as int) {
                        assert(cell_of(cur, r3, c3) == cell_of(prev, r3, c3));
                    }
                }
            }
        }
    }
}

/// Popping the last queue entry: the rest keeps its properties, the popped
/// cell is exempted from the frontier obligation, and its properties are
/// handed out.
proof fn lemma_flood_pop(base: BoardView, cur: BoardView, queue0: Seq<(usize, usize)>)
    requires
        queue_ok(base, cur, queue0),
        frontier_closed_except(base, cur, queue0, -1, -1),
        queue0.len() > 0,
    ensures
        ({
            let short = queue0.subrange(0, queue0.len() - 1);
            let qr = queue0.last().0 as int;
            let qc = queue0.last().1 as int;
            &&& queue_ok(base, cur, short)
            &&& frontier_closed_except(base, cur, short, qr, qc)
            &&& in_range(cur, qr, qc)
            &&& newly_revealed(base, cur, qr, qc)
            &&& !cell_of(cur, qr, qc).has_mine
            &&& cell_of(cur, qr, qc).adjacent == 0
        }),
{
    reveal(queue_ok);
    reveal(frontier_closed_except);
    let short = queue0.subrange(0, queue0.len() - 1);
    let qr = queue0.last().0 as int;
    let qc = queue0.last().1 as int;
    assert(queue0[queue0.len() - 1] == queue0.last());
    assert forall|r: int, c: int| #[trigger] newly_revealed(base, cur, r, c) && !cell_of(
        cur,
        r,
        c,
    ).has_mine && cell_of(cur, r, c).adjacent == 0 implies (r == qr && c == qc) || listed(
        short,
        r,
        c,
    ) || all_neighbors_opened(cur, r, c) by {
        if listed(queue0, r, c) && !(r == qr && c == qc) {
            let k = choose|k: int| 0 <= k < queue0.len() && (#[trigger] queue0[k]).0 == r
                && queue0[k].1 == c;
            assert(k < queue0.len() - 1);
            assert(short[k] == queue0[k]);
        }
    }
}

/// Opening a hidden neighbor of an already-opened zero-count cell keeps the
/// revealed set connected: the zero cell vouches for its new neighbor, and
/// every older cell keeps its witness.
#[verifier::spinoff_prover]
#[verifier::rlimit(30)]
proof fn lemma_open_connected(
    base: BoardView,
    before: Seq<Cell>,
    tr: int,
    tc: int,
    qr: int,
    qc: int,
    nr: usize,
    nc: usize,
)
    requires
        board_wf(base),
        base.placed,
        before.len() == base.rows * base.cols,
        0 <= qr < base.rows,
        0 <= qc < base.cols,
        nr < base.rows,
        nc < base.cols,
        revealed_connected(base, with_cells(base, before), tr, tc),
        newly_revealed(base, with_cells(base, before), qr, qc),
        !cell_of(with_cells(base, before), qr, qc).has_mine,
        cell_of(with_cells(base, before), qr, qc).adjacent == 0,
        is_adjacent(qr, qc, nr as int, nc as int),
        cell_of(with_cells(base, before), nr as int, nc as int).visibility == Visibility::Hidden,
        cell_of(base, nr as int, nc as int).visibility == Visibility::Hidden,
        forall|r2: int, c2: int| in_range(base, r2, c2) && !(r2 == nr as int && c2 == nc as int)
            ==> cell_of(
            with_cells(
                base,
                before.update(
                    nr as int * base.cols + nc as int,
                    Cell {
                        has_mine: before[nr as int * base.cols + nc as int].has_mine,
                        adjacent: before[nr as int * base.cols + nc as int].adjacent,
                        visibility: Visibility::Revealed,
                    },
                ),
            ),
            r2,
            c2,
        ) == #[trigger] cell_of(with_cells(base, before), r2, c2),
    ensures
        ({
            let ni = nr as int * base.cols + nc as int;
            let ncell = before[ni];
            let cur = with_cells(
                base,
                before.update(
                    ni,
                    Cell {
                        has_mine: ncell.has_mine,
                        adjacent: ncell.adjacent,
                        visibility: Visibility::Revealed,
                    },
                ),
            );
            revealed_connected(base, cur, tr, tc)
        }),
{
    reveal(revealed_connected);
    let rows = base.rows;
    let cols = base.cols;
    let prev = with_cells(base, before);
    let ni = nr as int * cols + nc as int;
    lemma_idx_bounds(rows, cols, nr as int, nc as int);
    lemma_idx_bounds(rows, cols, qr, qc);
    let ncell = before[ni];
    let cur = with_cells(
        base,
        before.update(
            ni,
            Cell { has_mine: ncell.has_mine, adjacent: ncell.adjacent, visibility: Visibility::Revealed },
        ),
    );
    assert(cell_of(cur, qr, qc) == cell_of(prev, qr, qc));
    assert forall|r: int, c: int| #[trigger] newly_revealed(base, cur, r, c) && !(r == tr && c
        == tc) implies exists|r2: int, c2: int| #[trigger] is_adjacent(r, c, r2, c2)
        && newly_revealed(base, cur, r2, c2) && !cell_of(cur, r2, c2).has_mine && cell_of(
        cur,
        r2,
        c2,
    ).adjacent == 0 by {
        if r == nr as int && c == nc as int {
            assert(is_adjacent(nr as int, nc as int, qr, qc));
            assert(newly_revealed(base, cur, qr, qc));
        } else {
            assert(cell_of(cur, r, c) == cell_of(prev, r, c));
            assert(newly_revealed(base, prev, r, c));
            let (r2, c2) = choose|r2: int, c2: int| #[trigger] is_adjacent(r, c, r2, c2)
                && newly_revealed(base, prev, r2, c2) && !cell_of(prev, r2, c2).has_mine
                && cell_of(prev, r2, c2).adjacent == 0;
            if !(r2 == nr as int && c2 == nc as int) {
                assert(cell_of(cur, r2, c2) == cell_of(prev, r2, c2));
            }
            assert(newly_revealed(base, cur, r2, c2) && !cell_of(cur, r2, c2).has_mine && cell_of(
                cur,
                r2,
                c2,
            ).adjacent == 0);
        }
    }
}

/// Once the expanded cell's whole neighborhood is open, the exemption can
/// be dropped again.
proof fn lemma_flood_finish(
    base: BoardView,
    cur: BoardView,
    queue1: Seq<(usize, usize)>,
    qr: int,
    qc: int,
)
    requires
        frontier_closed_except(base, cur, queue1, qr, qc),
        all_neighbors_opened(cur, qr, qc),
    ensures
        frontier_closed_except(base, cur, queue1, -1, -1),
{
    reveal(frontier_closed_except);
}

/// With the queue drained, the frontier invariant says the flood fill was
/// exhaustive.
proof fn lemma_flood_closure(base: BoardView, cur: BoardView, queue1: Seq<(usize, usize)>)
    requires
        frontier_closed_except(base, cur, queue1, -1, -1),
        queue1.len() == 0,
    ensures
        zero_region_closed(base, cur),
{
    reveal(frontier_closed_except);
}

/// How `count_hidden` changes when one cell is overwritten.
pub proof fn lemma_count_hidden_update(cells: Seq<Cell>, i: int, cell: Cell)
    requires
        0 <= i < cells.len(),
    ensures
        count_hidden(cells.update(i, cell)) == count_hidden(cells) - (if cells[i].visibility
            == Visibility::Hidden {
            1int
        } else {
            0int
        }) + (if cell.visibility == Visibility::Hidden {
            1int
        } else {
            0int
        }),
    decreases cells.len(),
{
    let updated = cells.update(i, cell);
    if i == cells.len() - 1 {
        assert(updated.drop_last() =~= cells.drop_last());
    } else {
        assert(updated.drop_last() =~= cells.drop_last().update(i, cell));
        lemma_count_hidden_update(cells.drop_last(), i, cell);
    }
}

/// Expands the queued zero-count cells until the frontier is exhausted:
/// every hidden neighbor of a queued cell is revealed, recorded in
/// `changes`, and queued itself when its own count is zero.
#[verifier::spinoff_prover]
#[verifier::rlimit(50)]
fn flood(
    cells: &mut Vec<Cell>,
    changes: &mut Vec<(usize, usize)>,
    queue: &mut Vec<(usize, usize)>,
    rows: usize,
    cols: usize,
    Ghost(base): Ghost<BoardView>,
    Ghost(target): Ghost<(int, int)>,
)
    requires
        board_wf(base),
        base.placed,
        base.rows == rows,
        base.cols == cols,
        old(cells)@.len() == rows * cols,
        flood_inv(
            base,
            with_cells(base, old(cells)@),
            old(queue)@,
            old(changes)@,
            target.0,
            target.1,
        ),
    ensures
        final(cells)@.len() == old(cells)@.len(),
        final(queue)@.len() == 0,
        flood_inv(
            base,
            with_cells(base, final(cells)@),
            final(queue)@,
            final(changes)@,
            target.0,
            target.1,
        ),
        forall|i: int| 0 <= i < old(cells)@.len() && (#[trigger] old(cells)@[i]).visibility
            == Visibility::Revealed ==> final(cells)@[i].visibility == Visibility::Revealed,
{
    proof {
        assert(rows * cols <= MAX_DIM * MAX_DIM) by (nonlinear_arith)
            requires
                rows <= MAX_DIM,
                cols <= MAX_DIM,
        ;
    }
    while queue.len() > 0
        invariant
            board_wf(base),
            base.placed,
            base.rows == rows,
            base.cols == cols,
            rows * cols <= MAX_DIM * MAX_DIM,
            cells@.len() == rows * cols,
            old(cells)@.len() == rows * cols,
            flood_inv(base, with_cells(base, cells@), queue@, changes@, target.0, target.1),
            forall|i: int| 0 <= i < old(cells)@.len() && (#[trigger] old(cells)@[i]).visibility
                == Visibility::Revealed ==> cells@[i].visibility == Visibility::Revealed,
        decreases 2 * count_hidden(cells@) + queue@.len(),
    {
        let ghost head_metric = 2 * count_hidden(cells@) + queue@.len();
        let ghost queue_full = queue@;
        let popped = queue.pop().unwrap();
        let qr = popped.0;
        let qc = popped.1;
        proof {
            lemma_flood_pop(base, with_cells(base, cells@), queue_full);
            assert(queue@ =~= queue_full.subrange(0, queue_full.len() - 1));
            lemma_idx_bounds(rows as int, cols as int, qr as int, qc as int);
            assert(in_range(base, qr as int, qc as int));
            assert(cell_of(base, qr as int, qc as int).adjacent == adj_mines(
                base,
                qr as int,
                qc as int,
            ));
            assert(grid_adj_mines(base.cells, rows as int, cols as int, qr as int, qc as int) == 0);
        }
        let mut dn: usize = 0;
        while dn < 8
            invariant
                dn <= 8,
                board_wf(base),
                base.placed,
                base.rows == rows,
                base.cols == cols,
                rows * cols <= MAX_DIM * MAX_DIM,
                cells@.len() == rows * cols,
                old(cells)@.len() == rows * cols,
                qr < rows,
                qc < cols,
                newly_revealed(base, with_cells(base, cells@), qr as int, qc as int),
                cell_of(with_cells(base, cells@), qr as int, qc as int).adjacent == 0,
                !cell_of(with_cells(base, cells@), qr as int, qc as int).has_mine,
                grid_adj_mines(base.cells, rows as int, cols as int, qr as int, qc as int) == 0,
                mines_unchanged(base, with_cells(base, cells@)),
                reveal_monotonic(base, with_cells(base, cells@)),
                no_mine_revealed(with_cells(base, cells@)),
                changes_coords_exact(base, with_cells(base, cells@), changes@),
                queue_ok(base, with_cells(base, cells@), queue@),
                frontier_closed_except(
                    base,
                    with_cells(base, cells@),
                    queue@,
                    qr as int,
                    qc as int,
                ),
                revealed_connected(base, with_cells(base, cells@), target.0, target.1),
                forall|d: int| 0 <= d < dn ==> {
                    let r2 = qr + (#[trigger] noff(d)).0;
                    let c2 = qc + noff(d).1;
                    in_range(with_cells(base, cells@), r2, c2) ==> cell_of(
                        with_cells(base, cells@),
                        r2,
                        c2,
                    ).visibility != Visibility::Hidden
                },
                forall|i: int| 0 <= i < old(cells)@.len() && (#[trigger] old(cells)@[i]).visibility
                    == Visibility::Revealed ==> cells@[i].visibility == Visibility::Revealed,
                2 * count_hidden(cells@) + queue@.len() < head_metric,
            decreases 8 - dn,
        {
            let shift: (usize, usize) = if dn == 0 {
                (0, 0)
            } else if dn == 1 {
                (0, 1)
            } else if dn == 2 {
                (0, 2)
            } else if dn == 3 {
                (1, 0)
            } else if dn == 4 {
                (1, 2)
            } else if dn == 5 {
                (2, 0)
            } else if dn == 6 {
                (2, 1)
            } else {
                (2, 2)
            };
            proof {
                assert(noff(dn as int) == (shift.0 as int - 1, shift.1 as int - 1));
            }
            let nr1 = qr + shift.0;
            let nc1 = qc + shift.1;
            if nr1 >= 1 && nr1 <= rows && nc1 >= 1 && nc1 <= cols {
                let nr = nr1 - 1;
                let nc = nc1 - 1;
                proof {
                    lemma_idx_bounds(rows as int, cols as int, nr as int, nc as int);
                    assert(is_adjacent(qr as int, qc as int, nr as int, nc as int));
                }
                let ni = nr * cols + nc;
                let ncell = cells[ni];
                if ncell.visibility == Visibility::Hidden {
                    let ghost before = cells@;
                    let ghost changes_before = changes@;
                    let ghost queue_before = queue@;
                    proof {
                        lemma_open_basics(base, before, qr as int, qc as int, nr, nc);
                        lemma_open_changes(base, before, changes_before, nr, nc);
                        lemma_open_queue(base, before, queue_before, nr, nc);
                        lemma_open_frontier(
                            base,
                            before,
                            queue_before,
                            qr as int,
                            qc as int,
                            nr,
                            nc,
                        );
                        lemma_open_connected(
                            base,
                            before,
                            target.0,
                            target.1,
                            qr as int,
                            qc as int,
                            nr,
                            nc,
                        );
                    }
                    let opened = Cell {
                        has_mine: ncell.has_mine,
                        adjacent: ncell.adjacent,
                        visibility: Visibility::Revealed,
                    };
                    cells[ni] = opened;
                    changes.push((nr, nc));
                    if ncell.adjacent == 0 {
                        queue.push((nr, nc));
                    }
                    proof {
                        lemma_count_hidden_update(before, ni as int, opened);
                        assert(cells@ =~= before.update(ni as int, opened));
                        assert forall|i: int| 0 <= i < old(cells)@.len() && (#[trigger] old(
                            cells,
                        )@[i]).visibility == Visibility::Revealed implies cells@[i].visibility
                            == Visibility::Revealed by {
                            if i != ni as int {
                                assert(cells@[i] == before[i]);
                            }
                        }
                        // Previously visited neighbors stay open: only a
                        // hidden cell became revealed.
                        assert forall|d: int| 0 <= d < dn + 1 implies {
                            let r2 = qr + (#[trigger] noff(d)).0;
                            let c2 = qc + noff(d).1;
                            in_range(with_cells(base, cells@), r2, c2) ==> cell_of(
                                with_cells(base, cells@),
                                r2,
                                c2,
                            ).visibility != Visibility::Hidden
                        } by {
                            let r2 = qr + noff(d).0;
                            let c2 = qc + noff(d).1;
                            if in_range(with_cells(base, cells@), r2, c2) {
                                if !(r2 == nr as int && c2 == nc as int) {
                                    assert(cell_of(with_cells(base, cells@), r2, c2) == cell_of(
                                        with_cells(base, before),
                                        r2,
                                        c2,
                                    ));
                                }
                            }
                        }
                    }
                } else {
                    proof {
                        assert(cell_of(with_cells(base, cells@), nr as int, nc as int).visibility
                            != Visibility::Hidden);
                    }
                }
            } else {
                proof {
                    assert({
                        let r2 = qr + noff(dn as int).0;
                        let c2 = qc + noff(dn as int).1;
                        !in_range(with_cells(base, cells@), r2, c2)
                    });
                }
            }
            dn = dn + 1;
        }
        proof {
            let cur = with_cells(base, cells@);
            // All 8 neighbors were visited, so the popped cell's whole
            // neighborhood is open and the exemption can be dropped.
            assert forall|r2: int, c2: int| in_range(cur, r2, c2) && #[trigger] is_adjacent(
                qr as int,
                qc as int,
                r2,
                c2,
            ) implies cell_of(cur, r2, c2).visibility != Visibility::Hidden by {
                let dr = r2 - qr as int;
                let dc = c2 - qc as int;
                let d: int = if dr == -1 && dc == -1 {
                    0
                } else if dr == -1 && dc == 0 {
                    1
                } else if dr == -1 && dc == 1 {
                    2
                } else if dr == 0 && dc == -1 {
                    3
                } else if dr == 0 && dc == 1 {
                    4
                } else if dr == 1 && dc == -1 {
                    5
                } else if dr == 1 && dc == 0 {
                    6
                } else {
                    7
                };
                assert(noff(d) == (dr, dc));
                assert(qr + noff(d).0 == r2 && qc + noff(d).1 == c2);
            }
            assert(all_neighbors_opened(cur, qr as int, qc as int)) by {
                reveal(all_neighbors_opened);
            }
            lemma_flood_finish(base, cur, queue@, qr as int, qc as int);
        }
    }
}

/// The mine budget is live, not just declared: on any well-formed board
/// with mines placed, exactly `mine_count` cells carry a mine. Together
/// with `reveal_cell`'s and `toggle_flag`'s contracts (the mine layout and
/// `mine_count` never change after placement) the count is constant for the
/// whole session.
pub proof fn lemma_mine_count_constant(v: BoardView)
    requires
        board_wf(v),
        v.placed,
    ensures
        count_mines(v.cells) == v.mine_count,
{
}

/// Win detection in counting form: a placed board that is not lost is won
/// exactly when the number of revealed cells equals `rows * cols` minus the
/// mine count - never earlier, never while a safe cell is still unrevealed.
pub proof fn lemma_win_iff_counts(v: BoardView)
    requires
        board_wf(v),
        v.placed,
        v.state != GameState::Lost,
    ensures
        (v.state == GameState::Won) <==> (count_revealed(v.cells) == v.rows * v.cols
            - v.mine_count),
{
    lemma_revealed_count_vs_safe(v.cells);
}

/// Changes that leave mine flags and cached counts alone also leave the
/// cache correct.
proof fn lemma_counts_correct_preserved(a: BoardView, b: BoardView)
    requires
        a.rows == b.rows,
        a.cols == b.cols,
        a.cells.len() == b.cells.len(),
        a.cells.len() == a.rows * a.cols,
        1 <= a.rows,
        1 <= a.cols,
        counts_correct(a),
        mines_unchanged(a, b),
    ensures
        counts_correct(b),
{
    assert forall|r2: int, c2: int| true implies grid_mine_ind(b.cells, b.rows, b.cols, r2, c2)
        == grid_mine_ind(a.cells, a.rows, a.cols, r2, c2) by {
        if 0 <= r2 < a.rows && 0 <= c2 < a.cols {
            lemma_idx_bounds(a.rows, a.cols, r2, c2);
        }
    }
    assert forall|r2: int, c2: int| #[trigger] in_range(b, r2, c2) implies cell_of(
        b,
        r2,
        c2,
    ).adjacent == adj_mines(b, r2, c2) by {
        lemma_idx_bounds(a.rows, a.cols, r2, c2);
        assert(in_range(a, r2, c2));
    }
}

/// An exact change list stays exact when the old side is swapped for a view
/// with the same visibilities, and the new side for a view with the same
/// cells.
proof fn lemma_changes_bridge(
    pre: BoardView,
    base: BoardView,
    cur: BoardView,
    post: BoardView,
    changes: Seq<(usize, usize)>,
)
    requires
        pre.rows == base.rows,
        pre.cols == base.cols,
        pre.cells.len() == base.cells.len(),
        pre.cells.len() == pre.rows * pre.cols,
        1 <= pre.rows,
        1 <= pre.cols,
        forall|i: int| 0 <= i < pre.cells.len() ==> (#[trigger] pre.cells[i]).visibility
            == base.cells[i].visibility,
        cur.cells == post.cells,
        cur.rows == post.rows,
        cur.cols == post.cols,
        changes_coords_exact(base, cur, changes),
    ensures
        changes_coords_exact(pre, post, changes),
{
    reveal(changes_coords_exact);
    assert forall|r2: int, c2: int| in_range(pre, r2, c2) implies cell_of(
        pre,
        r2,
        c2,
    ).visibility == (#[trigger] cell_of(base, r2, c2)).visibility by {
        lemma_idx_bounds(pre.rows, pre.cols, r2, c2);
    }
    assert forall|r2: int, c2: int| in_range(pre, r2, c2) && cell_of(post, r2, c2).visibility != (
    #[trigger] cell_of(pre, r2, c2)).visibility implies listed(changes, r2, c2) by {
        assert(cell_of(cur, r2, c2) == cell_of(post, r2, c2));
        assert(cell_of(base, r2, c2).visibility == cell_of(pre, r2, c2).visibility);
    }
    assert forall|k: int| 0 <= k < changes.len() implies in_range(
        pre,
        (#[trigger] changes[k]).0 as int,
        changes[k].1 as int,
    ) && cell_of(post, changes[k].0 as int, changes[k].1 as int).visibility != cell_of(
        pre,
        changes[k].0 as int,
        changes[k].1 as int,
    ).visibility by {
        assert(cell_of(cur, changes[k].0 as int, changes[k].1 as int) == cell_of(
            post,
            changes[k].0 as int,
            changes[k].1 as int,
        ));
    }
}

/// The flood closure carries over to views with the same visibilities on
/// the old side and the same cells on the new side.
proof fn lemma_closure_bridge(pre: BoardView, base: BoardView, cur: BoardView, post: BoardView)
    requires
        pre.rows == base.rows,
        pre.cols == base.cols,
        pre.cells.len() == base.cells.len(),
        pre.cells.len() == pre.rows * pre.cols,
        1 <= pre.rows,
        1 <= pre.cols,
        forall|i: int| 0 <= i < pre.cells.len() ==> (#[trigger] pre.cells[i]).visibility
            == base.cells[i].visibility,
        cur.cells == post.cells,
        cur.rows == post.rows,
        cur.cols == post.cols,
        zero_region_closed(base, cur),
    ensures
        zero_region_closed(pre, post),
{
    reveal(all_neighbors_opened);
    assert forall|r: int, c: int| #[trigger] newly_revealed(pre, post, r, c) && !cell_of(
        post,
        r,
        c,
    ).has_mine && cell_of(post, r, c).adjacent == 0 implies all_neighbors_opened(post, r, c) by {
        lemma_idx_bounds(pre.rows, pre.cols, r, c);
        assert(newly_revealed(base, cur, r, c));
        assert(all_neighbors_opened(cur, r, c));
    }
}

/// The flood connectivity carries over to views with the same visibilities
/// on the old side and the same cells on the new side.
proof fn lemma_connected_bridge(
    pre: BoardView,
    base: BoardView,
    cur: BoardView,
    post: BoardView,
    tr: int,
    tc: int,
)
    requires
        pre.rows == base.rows,
        pre.cols == base.cols,
        pre.cells.len() == base.cells.len(),
        pre.cells.len() == pre.rows * pre.cols,
        1 <= pre.rows,
        1 <= pre.cols,
        forall|i: int| 0 <= i < pre.cells.len() ==> (#[trigger] pre.cells[i]).visibility
            == base.cells[i].visibility,
        cur.cells == post.cells,
        cur.rows == post.rows,
        cur.cols == post.cols,
        revealed_connected(base, cur, tr, tc),
    ensures
        revealed_connected(pre, post, tr, tc),
{
    reveal(revealed_connected);
    assert forall|r: int, c: int| #[trigger] newly_revealed(pre, post, r, c) && !(r == tr && c
        == tc) implies exists|r2: int, c2: int| #[trigger] is_adjacent(r, c, r2, c2)
        && newly_revealed(pre, post, r2, c2) && !cell_of(post, r2, c2).has_mine && cell_of(
        post,
        r2,
        c2,
    ).adjacent == 0 by {
        lemma_idx_bounds(pre.rows, pre.cols, r, c);
        assert(newly_revealed(base, cur, r, c));
        let (r2, c2) = choose|r2: int, c2: int| #[trigger] is_adjacent(r, c, r2, c2)
            && newly_revealed(base, cur, r2, c2) && !cell_of(cur, r2, c2).has_mine && cell_of(
            cur,
            r2,
            c2,
        ).adjacent == 0;
        lemma_idx_bounds(pre.rows, pre.cols, r2, c2);
        assert(newly_revealed(pre, post, r2, c2));
        assert(cell_of(post, r2, c2) == cell_of(cur, r2, c2));
    }
}

/// An empty change list is exact for an unchanged board.
pub proof fn lemma_changes_refl(v: BoardView, changes: Seq<(usize, usize)>)
    requires
        changes.len() == 0,
    ensures
        changes_coords_exact(v, v, changes),
{
    reveal(changes_coords_exact);
}

/// Exact change lists compose: the concatenation of the lists of two
/// consecutive monotonic transitions is exact for the combined transition.
#[verifier::spinoff_prover]
#[verifier::rlimit(30)]
pub proof fn lemma_changes_compose(
    pre: BoardView,
    mid: BoardView,
    post: BoardView,
    ch1: Seq<(usize, usize)>,
    ch2: Seq<(usize, usize)>,
)
    requires
        same_config(pre, mid),
        same_config(mid, post),
        pre.cells.len() == pre.rows * pre.cols,
        1 <= pre.rows,
        1 <= pre.cols,
        reveal_monotonic(pre, mid),
        reveal_monotonic(mid, post),
        changes_coords_exact(pre, mid, ch1),
        changes_coords_exact(mid, post, ch2),
    ensures
        changes_coords_exact(pre, post, ch1 + ch2),
{
    reveal(changes_coords_exact);
    let both = ch1 + ch2;
    // Any coordinate named by either list changed overall, and between the
    // two lists no coordinate repeats: cells of the first list are revealed
    // by `mid`, cells of the second are not yet.
    assert forall|k: int| 0 <= k < both.len() implies in_range(
        pre,
        (#[trigger] both[k]).0 as int,
        both[k].1 as int,
    ) && cell_of(post, both[k].0 as int, both[k].1 as int).visibility != cell_of(
        pre,
        both[k].0 as int,
        both[k].1 as int,
    ).visibility by {
        if k < ch1.len() {
            assert(both[k] == ch1[k]);
            let r = ch1[k].0 as int;
            let c = ch1[k].1 as int;
            lemma_idx_bounds(pre.rows, pre.cols, r, c);
            assert(cell_of(mid, r, c).visibility == Visibility::Revealed);
            assert(cell_of(post, r, c).visibility == Visibility::Revealed);
            assert(cell_of(pre, r, c).visibility != Visibility::Revealed);
        } else {
            assert(both[k] == ch2[k - ch1.len()]);
            let r = both[k].0 as int;
            let c = both[k].1 as int;
            lemma_idx_bounds(pre.rows, pre.cols, r, c);
            assert(cell_of(post, r, c).visibility == Visibility::Revealed);
            assert(cell_of(mid, r, c).visibility != Visibility::Revealed);
            assert(cell_of(pre, r, c).visibility != Visibility::Revealed);
        }
    }
    assert forall|r: int, c: int| in_range(pre, r, c) && cell_of(post, r, c).visibility != (
    #[trigger] cell_of(pre, r, c)).visibility implies listed(both, r, c) by {
        if cell_of(mid, r, c).visibility != cell_of(pre, r, c).visibility {
            let k = choose|k: int| 0 <= k < ch1.len() && (#[trigger] ch1[k]).0 == r && ch1[k].1
                == c;
            assert(both[k] == ch1[k]);
        } else {
            assert(cell_of(post, r, c).visibility != cell_of(mid, r, c).visibility);
            let k = choose|k: int| 0 <= k < ch2.len() && (#[trigger] ch2[k]).0 == r && ch2[k].1
                == c;
            assert(both[ch1.len() + k] == ch2[k]);
        }
    }
    assert forall|k1: int, k2: int| 0 <= k1 < k2 < both.len() implies !((#[trigger] both[k1]).0 == (
    #[trigger] both[k2]).0 && both[k1].1 == both[k2].1) by {
        if k1 < ch1.len() && k2 >= ch1.len() {
            let r1 = both[k1].0 as int;
            let c1 = both[k1].1 as int;
            let r2 = both[k2].0 as int;
            let c2 = both[k2].1 as int;
            lemma_idx_bounds(pre.rows, pre.cols, r1, c1);
            lemma_idx_bounds(pre.rows, pre.cols, r2, c2);
            assert(both[k1] == ch1[k1]);
            assert(both[k2] == ch2[k2 - ch1.len()]);
            assert(cell_of(mid, r1, c1).visibility == Visibility::Revealed);
            assert(cell_of(mid, r2, c2).visibility != Visibility::Revealed);
        }
    }
}

/// The board itself. All fields are private: the only way to observe a cell
/// is [`Board::cell_at`], which never exposes the mine layout of a hidden
/// cell while the game is running.
pub struct Board {
    rows: usize,
    cols: usize,
    mine_count: usize,
    cells: Vec<Cell>,
    state: GameState,
    placed: bool,
    /// State of the pseudo-random generator that drives mine placement.
    rng: u64,
}

impl View for Board {
    type V = BoardView;

    closed spec fn view(&self) -> BoardView {
        BoardView {
            rows: self.rows as int,
            cols: self.cols as int,
            mine_count: self.mine_count as int,
            cells: self.cells@,
            state: self.state,
            placed: self.placed,
        }
    }
}

impl Board {
    /// Builds a fresh board with no mines placed yet. Placement is deferred
    /// to the first reveal so that the first clicked cell is never a mine.
    ///
    /// Fails with `InvalidConfiguration` unless
    /// `1 <= rows <= MAX_DIM`, `1 <= cols <= MAX_DIM` and
    /// `1 <= mine_count < rows * cols`.
    pub fn new_seeded(rows: usize, cols: usize, mine_count: usize, seed: u64) -> (r: Result<
        Board,
        BoardError,
    >)
        ensures
            (r is Ok) <==> (1 <= rows <= MAX_DIM && 1 <= cols <= MAX_DIM && 1 <= mine_count
                && mine_count < rows * cols),
            r matches Ok(b) ==> {
                &&& board_wf(b@)
                &&& b@.rows == rows
                &&& b@.cols == cols
                &&& b@.mine_count == mine_count
                &&& b@.state == GameState::NotStarted
                &&& !b@.placed
                &&& forall|i: int| 0 <= i < b@.cells.len() ==> #[trigger] b@.cells[i] == (Cell {
                    has_mine: false,
                    adjacent: 0,
                    visibility: Visibility::Hidden,
                })
            },
            r matches Err(e) ==> e == BoardError::InvalidConfiguration,
    {
        if rows < 1 || rows > MAX_DIM || cols < 1 || cols > MAX_DIM {
            return Err(BoardError::InvalidConfiguration);
        }
        proof {
            assert(rows * cols <= MAX_DIM * MAX_DIM) by (nonlinear_arith)
                requires
                    rows <= MAX_DIM,
                    cols <= MAX_DIM,
            ;
        }
        let total = rows * cols;
        if mine_count < 1 || mine_count >= total {
            return Err(BoardError::InvalidConfiguration);
        }
        let mut cells: Vec<Cell> = Vec::new();
        let mut i: usize = 0;
        while i < total
            invariant
                i <= total,
                cells@.len() == i,
                forall|j: int| 0 <= j < i ==> #[trigger] cells@[j] == (Cell {
                    has_mine: false,
                    adjacent: 0,
                    visibility: Visibility::Hidden,
                }),
            decreases total - i,
        {
            cells.push(Cell { has_mine: false, adjacent: 0, visibility: Visibility::Hidden });
            i = i + 1;
        }
        proof {
            lemma_counts_of_uniform_hidden(cells@);
        }
        Ok(Board { rows, cols, mine_count, cells, state: GameState::NotStarted, placed: false, rng: seed })
    }

    /// [`Board::new_seeded`] with a fixed default seed.
    pub fn new(rows: usize, cols: usize, mine_count: usize) -> (r: Result<Board, BoardError>)
        ensures
            (r is Ok) <==> (1 <= rows <= MAX_DIM && 1 <= cols <= MAX_DIM && 1 <= mine_count
                && mine_count < rows * cols),
            r matches Ok(b) ==> {
                &&& board_wf(b@)
                &&& b@.rows == rows
                &&& b@.cols == cols
                &&& b@.mine_count == mine_count
                &&& b@.state == GameState::NotStarted
                &&& !b@.placed
                &&& forall|i: int| 0 <= i < b@.cells.len() ==> #[trigger] b@.cells[i] == (Cell {
                    has_mine: false,
                    adjacent: 0,
                    visibility: Visibility::Hidden,
                })
            },
            r matches Err(e) ==> e == BoardError::InvalidConfiguration,
    {
        Self::new_seeded(rows, cols, mine_count, 0x9e3779b97f4a7c15)
    }

    pub fn rows(&self) -> (r: usize)
        ensures
            r == self@.rows,
    {
        self.rows
    }

    pub fn cols(&self) -> (r: usize)
        ensures
            r == self@.cols,
    {
        self.cols
    }

    pub fn mine_count(&self) -> (r: usize)
        ensures
            r == self@.mine_count,
    {
        self.mine_count
    }

    pub fn game_state(&self) -> (r: GameState)
        ensures
            r == self@.state,
    {
        self.state
    }

    pub fn mines_placed(&self) -> (r: bool)
        ensures
            r == self@.placed,
    {
        self.placed
    }

    /// Flips a hidden cell to flagged or back. A no-op when the cell is
    /// already revealed or the game is over; out-of-range coordinates are
    /// rejected. Nothing else on the board changes.
    pub fn toggle_flag(&mut self, row: usize, col: usize) -> (r: Result<RevealOutcome, BoardError>)
        requires
            board_wf(old(self)@),
        ensures
            board_wf(final(self)@),
            final(self)@.rows == old(self)@.rows,
            final(self)@.cols == old(self)@.cols,
            final(self)@.mine_count == old(self)@.mine_count,
            final(self)@.placed == old(self)@.placed,
            final(self)@.state == old(self)@.state,
            final(self)@.cells.len() == old(self)@.cells.len(),
            (r is Err) <==> !in_range(old(self)@, row as int, col as int),
            r matches Err(e) ==> e == BoardError::OutOfBounds && final(self)@ == old(self)@,
            r matches Ok(o) ==> {
                &&& (o == RevealOutcome::NoChange <==> flag_blocked(
                    old(self)@,
                    row as int,
                    col as int,
                ))
                &&& (flag_blocked(old(self)@, row as int, col as int) ==> final(self)@ == old(
                    self,
                )@)
                &&& (!flag_blocked(old(self)@, row as int, col as int) ==> {
                    &&& o == RevealOutcome::Changed
                    &&& cell_of(final(self)@, row as int, col as int).visibility == (if cell_of(
                        old(self)@,
                        row as int,
                        col as int,
                    ).visibility == Visibility::Hidden {
                        Visibility::Flagged
                    } else {
                        Visibility::Hidden
                    })
                    &&& cell_of(final(self)@, row as int, col as int).has_mine == cell_of(
                        old(self)@,
                        row as int,
                        col as int,
                    ).has_mine
                    &&& cell_of(final(self)@, row as int, col as int).adjacent == cell_of(
                        old(self)@,
                        row as int,
                        col as int,
                    ).adjacent
                    &&& forall|r2: int, c2: int|
                        in_range(old(self)@, r2, c2) && !(r2 == row as int && c2 == col as int)
                            ==> cell_of(final(self)@, r2, c2) == #[trigger] cell_of(
                            old(self)@,
                            r2,
                            c2,
                        )
                })
            },
    {
        if row >= self.rows || col >= self.cols {
            return Err(BoardError::OutOfBounds);
        }
        proof {
            assert(self.rows * self.cols <= MAX_DIM * MAX_DIM) by (nonlinear_arith)
                requires
                    self.rows <= MAX_DIM,
                    self.cols <= MAX_DIM,
            ;
            lemma_idx_bounds(self@.rows, self@.cols, row as int, col as int);
        }
        let idx = row * self.cols + col;
        let cell = self.cells[idx];
        if self.state == GameState::Won || self.state == GameState::Lost || cell.visibility
            == Visibility::Revealed {
            return Ok(RevealOutcome::NoChange);
        }
        let flipped = Cell {
            has_mine: cell.has_mine,
            adjacent: cell.adjacent,
            visibility: if cell.visibility == Visibility::Hidden {
                Visibility::Flagged
            } else {
                Visibility::Hidden
            },
        };
        let ghost before = self@.cells;
        self.cells[idx] = flipped;
        proof {
            let pre = old(self)@;
            let post = self@;
            lemma_count_mines_update(before, idx as int, flipped);
            lemma_count_revealed_update(before, idx as int, flipped);
            assert forall|r2: int, c2: int|
                in_range(pre, r2, c2) && !(r2 == row as int && c2 == col as int)
                    implies cell_of(post, r2, c2) == #[trigger] cell_of(pre, r2, c2) by {
                lemma_idx_bounds(pre.rows, pre.cols, r2, c2);
                if r2 * pre.cols + c2 == idx as int {
                    lemma_idx_injective(pre.cols, r2, c2, row as int, col as int);
                }
            }
            if post.placed {
                assert forall|r2: int, c2: int| true implies grid_mine_ind(
                    post.cells,
                    post.rows,
                    post.cols,
                    r2,
                    c2,
                ) == grid_mine_ind(before, post.rows, post.cols, r2, c2) by {
                    if 0 <= r2 < post.rows && 0 <= c2 < post.cols {
                        lemma_idx_bounds(post.rows, post.cols, r2, c2);
                    }
                }
                assert(counts_correct(post)) by {
                    assert forall|r2: int, c2: int| #[trigger] in_range(post, r2, c2)
                        implies cell_of(post, r2, c2).adjacent == adj_mines(post, r2, c2) by {
                        lemma_idx_bounds(post.rows, post.cols, r2, c2);
                        assert(in_range(pre, r2, c2));
                    }
                }
            }
            assert forall|i: int| 0 <= i < post.cells.len() && (#[trigger] post.cells[i]).has_mine
                implies post.cells[i].visibility != Visibility::Revealed by {
                if i != idx as int {
                    assert(post.cells[i] == pre.cells[i]);
                }
            }
            assert(!all_safe_revealed(post)) by {
                assert(!all_safe_revealed(pre));
                let i = choose|i: int| 0 <= i < pre.cells.len() && !pre.cells[i].has_mine && (
                #[trigger] pre.cells[i].visibility) != Visibility::Revealed;
                assert(post.cells[i].visibility != Visibility::Revealed);
                assert(!post.cells[i].has_mine);
            }
            if !post.placed {
                assert forall|i: int| 0 <= i < post.cells.len()
                    implies (#[trigger] post.cells[i].visibility) != Visibility::Revealed by {
                    if i != idx as int {
                        assert(post.cells[i] == pre.cells[i]);
                    }
                }
            }
        }
        Ok(RevealOutcome::Changed)
    }

    /// Read-only snapshot of one cell. The mine flag and the adjacent count
    /// are handed out only for revealed cells or once the game is over, so a
    /// hidden layout never leaks while a game is running.
    pub fn cell_at(&self, row: usize, col: usize) -> (r: Result<CellSnapshot, BoardError>)
        requires
            board_wf(self@),
        ensures
            (r is Err) <==> !in_range(self@, row as int, col as int),
            r matches Err(e) ==> e == BoardError::OutOfBounds,
            r matches Ok(s) ==> ({
                let cell = cell_of(self@, row as int, col as int);
                &&& s.visibility == cell.visibility
                &&& s.known == (cell.visibility == Visibility::Revealed || self@.state
                    == GameState::Won || self@.state == GameState::Lost)
                &&& (s.known ==> s.has_mine == cell.has_mine && s.adjacent == cell.adjacent)
                &&& (!s.known ==> s.has_mine == false && s.adjacent == 0)
            }),
    {
        if row >= self.rows || col >= self.cols {
            return Err(BoardError::OutOfBounds);
        }
        proof {
            assert(self.rows * self.cols <= MAX_DIM * MAX_DIM) by (nonlinear_arith)
                requires
                    self.rows <= MAX_DIM,
                    self.cols <= MAX_DIM,
            ;
            lemma_idx_bounds(self@.rows, self@.cols, row as int, col as int);
        }
        let cell = self.cells[row * self.cols + col];
        let known = cell.visibility == Visibility::Revealed || self.state == GameState::Won
            || self.state == GameState::Lost;
        Ok(
            CellSnapshot {
                visibility: cell.visibility,
                known,
                has_mine: if known {
                    cell.has_mine
                } else {
                    false
                },
                adjacent: if known {
                    cell.adjacent
                } else {
                    0
                },
            },
        )
    }

    /// Deferred mine placement for a first click at `(row, col)`: mines land
    /// on pseudo-randomly chosen cells outside the click's 3x3 neighborhood
    /// (or, when the board is too small for that, anywhere but the clicked
    /// cell itself), and every cell's `adjacent` count is computed. Starts
    /// the game.
    fn place_mines(&mut self, row: usize, col: usize)
        requires
            board_wf(old(self)@),
            !old(self)@.placed,
            in_range(old(self)@, row as int, col as int),
        ensures
            board_wf(final(self)@),
            final(self)@.rows == old(self)@.rows,
            final(self)@.cols == old(self)@.cols,
            final(self)@.mine_count == old(self)@.mine_count,
            final(self)@.placed,
            final(self)@.state == GameState::InProgress,
            final(self)@.cells.len() == old(self)@.cells.len(),
            forall|i: int| 0 <= i < final(self)@.cells.len()
                ==> (#[trigger] final(self)@.cells[i]).visibility == old(self)@.cells[i].visibility,
            !cell_of(final(self)@, row as int, col as int).has_mine,
            zone_fits(old(self)@, row as int, col as int) ==> zone_mine_free(
                final(self)@,
                row as int,
                col as int,
            ),
    {
        let rows = self.rows;
        let cols = self.cols;
        let mine_count = self.mine_count;
        proof {
            assert(rows * cols <= MAX_DIM * MAX_DIM) by (nonlinear_arith)
                requires
                    rows <= MAX_DIM,
                    cols <= MAX_DIM,
            ;
            lemma_idx_bounds(rows as int, cols as int, row as int, col as int);
        }
        let total = rows * cols;
        let ghost target = (row * cols + col) as int;
        let mut cands = collect_candidates(rows, cols, row, col, true);
        let ghost zone_path = cands@.len() >= mine_count;
        if cands.len() < mine_count {
            cands = collect_candidates(rows, cols, row, col, false);
        }
        let ghost pre_shuffle = cands@;
        let rng2 = shuffle_prefix(self.rng, &mut cands, mine_count);
        self.rng = rng2;
        proof {
            // Every shuffled entry keeps the properties the collection gave it.
            assert forall|j: int| 0 <= j < cands@.len() implies (#[trigger] cands@[j]) < total && (
            if zone_path {
                !in_zone(cols as int, row as int, col as int, cands@[j] as int)
            } else {
                cands@[j] as int != target
            }) by {
                assert(pre_shuffle.contains(cands@[j]));
                let w = choose|w: int| 0 <= w < pre_shuffle.len() && pre_shuffle[w] == cands@[j];
            }
            // The clicked cell is always in its own zone.
            assert(in_zone(cols as int, row as int, col as int, target));
            lemma_count_mines_zero(self.cells@);
        }
        set_mines(&mut self.cells, &cands, mine_count);
        let ghost mid = self.cells@;
        compute_adjacents(&mut self.cells, rows, cols);
        self.placed = true;
        self.state = GameState::InProgress;
        proof {
            let pre = old(self)@;
            let post = self@;
            // Counts after planting and recomputing: mines == mine_count,
            // visibility untouched.
            lemma_count_mines_pointwise(mid, post.cells);
            lemma_count_vis_pointwise(pre.cells, mid);
            lemma_count_vis_pointwise(mid, post.cells);
            assert(count_mines(post.cells) == mine_count);
            assert(count_revealed(post.cells) == 0);
            lemma_count_revealed_zero(post.cells);
            lemma_counts_bounded(post.cells);
            lemma_exists_safe(post.cells);
            assert(!all_safe_revealed(post));
            assert(counts_correct(post)) by {
                assert forall|r: int, c: int| #[trigger] in_range(post, r, c) implies cell_of(
                    post,
                    r,
                    c,
                ).adjacent == adj_mines(post, r, c) by {
                    lemma_idx_bounds(rows as int, cols as int, r, c);
                }
            }
            // The clicked cell never receives a mine.
            if cell_of(post, row as int, col as int).has_mine {
                let j = choose|j: int| 0 <= j < mine_count && (#[trigger] cands@[j]) == target;
                assert(false);
            }
            // With room for it, the whole zone stays clear.
            if zone_fits(pre, row as int, col as int) {
                assert(zone_path);
                assert forall|r: int, c: int| in_range(post, r, c) && ((r == row as int && c
                    == col as int) || is_adjacent(row as int, col as int, r, c)) implies !(
                #[trigger] cell_of(post, r, c)).has_mine by {
                    lemma_idx_bounds(rows as int, cols as int, r, c);
                    if cell_of(post, r, c).has_mine {
                        let j = choose|j: int| 0 <= j < mine_count && (#[trigger] cands@[j])
                            == r * cols as int + c;
                        assert(in_zone(cols as int, row as int, col as int, r * cols as int + c));
                        assert(false);
                    }
                }
            }
        }
    }

    /// Reveals the cell at `(row, col)`.
    ///
    /// A no-op when the game is over or the cell is flagged or already
    /// revealed. The first effective reveal places the mines, keeping the
    /// whole 3x3 zone around the click mine-free whenever the board has room
    /// for that, so the first reveal never explodes. Revealing a mine loses
    /// the game and opens every mine; revealing a zero-count cell
    /// flood-fills its whole zero-count region together with the region's
    /// border. The returned list holds exactly the coordinates whose
    /// visibility changed, each once, and the game is won exactly when every
    /// safe cell is revealed.
    pub fn reveal_cell(&mut self, row: usize, col: usize) -> (r: Result<
        (RevealOutcome, Vec<(usize, usize)>),
        BoardError,
    >)
        requires
            board_wf(old(self)@),
        ensures
            board_wf(final(self)@),
            same_config(old(self)@, final(self)@),
            final(self)@.rows == old(self)@.rows,
            final(self)@.cols == old(self)@.cols,
            final(self)@.mine_count == old(self)@.mine_count,
            (r is Err) <==> !in_range(old(self)@, row as int, col as int),
            r matches Err(e) ==> e == BoardError::OutOfBounds && final(self)@ == old(self)@,
            r matches Ok(u) ==> ({
                let pre = old(self)@;
                let post = final(self)@;
                let outcome = u.0;
                let changes = u.1@;
                &&& (outcome == RevealOutcome::NoChange <==> reveal_blocked(
                    pre,
                    row as int,
                    col as int,
                ))
                &&& (reveal_blocked(pre, row as int, col as int) ==> post == pre && changes.len()
                    == 0)
                &&& (!reveal_blocked(pre, row as int, col as int) ==> {
                    &&& post.placed
                    &&& reveal_monotonic(pre, post)
                    &&& changes_coords_exact(pre, post, changes)
                    &&& cell_of(post, row as int, col as int).visibility == Visibility::Revealed
                    &&& (pre.placed ==> mines_unchanged(pre, post))
                    &&& (outcome == RevealOutcome::Exploded <==> cell_of(
                        post,
                        row as int,
                        col as int,
                    ).has_mine)
                    &&& (cell_of(post, row as int, col as int).has_mine ==> {
                        &&& post.state == GameState::Lost
                        &&& all_mines_revealed(post)
                        &&& forall|r2: int, c2: int| #[trigger] mine_at(post, r2, c2) ==> listed(
                            changes,
                            r2,
                            c2,
                        )
                    })
                    &&& (!cell_of(post, row as int, col as int).has_mine ==> {
                        &&& outcome == RevealOutcome::Changed
                        &&& (post.state == GameState::Won || post.state == GameState::InProgress)
                        &&& (post.state == GameState::Won <==> all_safe_revealed(post))
                        &&& zero_region_closed(pre, post)
                        &&& revealed_connected(pre, post, row as int, col as int)
                    })
                    &&& (!pre.placed ==> {
                        &&& !cell_of(post, row as int, col as int).has_mine
                        &&& outcome != RevealOutcome::Exploded
                        &&& (zone_fits(pre, row as int, col as int) ==> zone_mine_free(
                            post,
                            row as int,
                            col as int,
                        ))
                    })
                })
            }),
    {
        let rows = self.rows;
        let cols = self.cols;
        if row >= rows || col >= cols {
            return Err(BoardError::OutOfBounds);
        }
        proof {
            assert(rows * cols <= MAX_DIM * MAX_DIM) by (nonlinear_arith)
                requires
                    rows <= MAX_DIM,
                    cols <= MAX_DIM,
            ;
            lemma_idx_bounds(rows as int, cols as int, row as int, col as int);
        }
        let idx = row * cols + col;
        if self.state == GameState::Won || self.state == GameState::Lost
            || self.cells[idx].visibility != Visibility::Hidden {
            proof {
                reveal(changes_coords_exact);
            }
            return Ok((RevealOutcome::NoChange, Vec::new()));
        }
        if !self.placed {
            self.place_mines(row, col);
        }
        let ghost pre = old(self)@;
        let ghost base = self@;
        proof {
            if pre.placed {
                assert(base == pre);
            }
            assert(board_wf(base));
            assert(base.state == GameState::InProgress);
            assert(forall|i: int| 0 <= i < pre.cells.len()
                ==> (#[trigger] pre.cells[i]).visibility == base.cells[i].visibility);
        }
        let tcell = self.cells[idx];
        let mut changes: Vec<(usize, usize)> = Vec::new();
        if tcell.has_mine {
            let total = self.cells.len();
            let mut i: usize = 0;
            while i < total
                invariant
                    i <= total,
                    board_wf(base),
                    base.placed,
                    base.state == GameState::InProgress,
                    base.rows == rows,
                    base.cols == cols,
                    1 <= rows <= MAX_DIM,
                    1 <= cols <= MAX_DIM,
                    total == rows * cols,
                    total <= MAX_DIM * MAX_DIM,
                    base.cells.len() == total,
                    self@.cells.len() == total,
                    self@.rows == base.rows,
                    self@.cols == base.cols,
                    self@.mine_count == base.mine_count,
                    self@.state == base.state,
                    self@.placed == base.placed,
                    mines_unchanged(base, self@),
                    reveal_monotonic(base, self@),
                    forall|i0: int| 0 <= i0 < i && (#[trigger] self@.cells[i0]).has_mine
                        ==> self@.cells[i0].visibility == Visibility::Revealed,
                    forall|i0: int| i <= i0 < total ==> #[trigger] self@.cells[i0]
                        == base.cells[i0],
                    forall|i0: int| 0 <= i0 < total && !(#[trigger] base.cells[i0]).has_mine
                        ==> self@.cells[i0] == base.cells[i0],
                    forall|k: int| 0 <= k < changes@.len() ==> in_range(
                        base,
                        (#[trigger] changes@[k]).0 as int,
                        changes@[k].1 as int,
                    ) && changes@[k].0 * cols + changes@[k].1 < i && cell_of(
                        self@,
                        changes@[k].0 as int,
                        changes@[k].1 as int,
                    ).visibility != cell_of(
                        base,
                        changes@[k].0 as int,
                        changes@[k].1 as int,
                    ).visibility,
                    forall|r2: int, c2: int| in_range(base, r2, c2) && cell_of(
                        self@,
                        r2,
                        c2,
                    ).visibility != (#[trigger] cell_of(base, r2, c2)).visibility ==> listed(
                        changes@,
                        r2,
                        c2,
                    ),
                    forall|k1: int, k2: int| 0 <= k1 < k2 < changes@.len() ==> (
                    #[trigger] changes@[k1]).0 * cols + changes@[k1].1 < (#[trigger] changes@[k2]).0
                        * cols + changes@[k2].1,
                decreases total - i,
            {
                let cell = self.cells[i];
                if cell.has_mine {
                    let r = i / cols;
                    let c = i % cols;
                    proof {
                        lemma_idx_inverse(rows as int, cols as int, i as int);
                    }
                    let ghost before = self@.cells;
                    let ghost changes_before = changes@;
                    self.cells[i] = Cell {
                        has_mine: true,
                        adjacent: cell.adjacent,
                        visibility: Visibility::Revealed,
                    };
                    changes.push((r, c));
                    proof {
                        assert(r * cols + c == i);
                        assert(cell_of(base, r as int, c as int).visibility
                            != Visibility::Revealed);
                        assert forall|r2: int, c2: int| in_range(base, r2, c2) && cell_of(
                            self@,
                            r2,
                            c2,
                        ).visibility != (#[trigger] cell_of(base, r2, c2)).visibility
                            implies listed(changes@, r2, c2) by {
                            lemma_idx_bounds(rows as int, cols as int, r2, c2);
                            if r2 * cols as int + c2 == i as int {
                                assert(changes@[changes@.len() - 1] == (r, c));
                                assert(r2 == r && c2 == c);
                            } else {
                                assert(self@.cells[r2 * cols as int + c2] == before[r2 * cols as int
                                    + c2]);
                                if cell_of(self@, r2, c2).visibility != cell_of(
                                    base,
                                    r2,
                                    c2,
                                ).visibility {
                                    assert(listed(changes_before, r2, c2));
                                    let k = choose|k: int| 0 <= k < changes_before.len() && (
                                    #[trigger] changes_before[k]).0 == r2 && changes_before[k].1
                                        == c2;
                                    assert(changes@[k] == changes_before[k]);
                                }
                            }
                        }
                    }
                }
                i = i + 1;
            }
            self.state = GameState::Lost;
            proof {
                let post = self@;
                lemma_count_mines_pointwise(base.cells, post.cells);
                lemma_counts_correct_preserved(base, post);
                // Some safe cell is still unrevealed, exactly as before.
                assert(!all_safe_revealed(post)) by {
                    assert(!all_safe_revealed(base));
                    let i0 = choose|i0: int| 0 <= i0 < base.cells.len() && !base.cells[i0].has_mine
                        && (#[trigger] base.cells[i0].visibility) != Visibility::Revealed;
                    assert(post.cells[i0] == base.cells[i0]);
                }
                assert(board_wf(post));
                assert(changes_coords_exact(base, post, changes@)) by {
                    reveal(changes_coords_exact);
                    assert forall|k1: int, k2: int| 0 <= k1 < k2 < changes@.len() implies !((
                    #[trigger] changes@[k1]).0 == (#[trigger] changes@[k2]).0 && changes@[k1].1
                        == changes@[k2].1) by {
                        if changes@[k1].0 == changes@[k2].0 && changes@[k1].1 == changes@[k2].1 {
                            assert(changes@[k1].0 * cols + changes@[k1].1 == changes@[k2].0 * cols
                                + changes@[k2].1);
                        }
                    }
                }
                lemma_changes_bridge(pre, base, post, post, changes@);
                lemma_idx_bounds(rows as int, cols as int, row as int, col as int);
                assert forall|r2: int, c2: int| #[trigger] mine_at(post, r2, c2) implies listed(
                    changes@,
                    r2,
                    c2,
                ) by {
                    reveal(changes_coords_exact);
                    lemma_idx_bounds(rows as int, cols as int, r2, c2);
                    assert(cell_of(base, r2, c2).visibility != Visibility::Revealed);
                    assert(cell_of(post, r2, c2).visibility == Visibility::Revealed);
                }
            }
            return Ok((RevealOutcome::Exploded, changes));
        }
        // The clicked cell is safe: open it and flood from it if it has no
        // mine around it.
        let opened = Cell {
            has_mine: tcell.has_mine,
            adjacent: tcell.adjacent,
            visibility: Visibility::Revealed,
        };
        self.cells[idx] = opened;
        changes.push((row, col));
        let mut queue: Vec<(usize, usize)> = Vec::new();
        if tcell.adjacent == 0 {
            queue.push((row, col));
        }
        proof {
            let cur = with_cells(base, self@.cells);
            assert(self@.cells =~= base.cells.update(idx as int, opened));
            assert forall|r2: int, c2: int| in_range(base, r2, c2) && !(r2 == row as int && c2
                == col as int) implies cell_of(cur, r2, c2) == #[trigger] cell_of(base, r2, c2) by {
                lemma_idx_bounds(rows as int, cols as int, r2, c2);
                if r2 * cols as int + c2 == idx as int {
                    lemma_idx_injective(cols as int, r2, c2, row as int, col as int);
                }
            }
            assert(changes_coords_exact(base, cur, changes@)) by {
                reveal(changes_coords_exact);
                assert(changes@[0] == (row, col));
            }
            assert(queue_ok(base, cur, queue@)) by {
                reveal(queue_ok);
            }
            assert(frontier_closed_except(base, cur, queue@, -1, -1)) by {
                reveal(frontier_closed_except);
                assert forall|r2: int, c2: int| #[trigger] newly_revealed(base, cur, r2, c2)
                    && !cell_of(cur, r2, c2).has_mine && cell_of(cur, r2, c2).adjacent == 0
                    implies listed(queue@, r2, c2) || all_neighbors_opened(cur, r2, c2) by {
                    assert(r2 == row as int && c2 == col as int);
                    assert(queue@[0] == (row, col));
                }
            }
            assert(revealed_connected(base, cur, row as int, col as int)) by {
                reveal(revealed_connected);
                assert forall|r2: int, c2: int| #[trigger] newly_revealed(base, cur, r2, c2) && !(
                r2 == row as int && c2 == col as int) implies false by {
                    assert(cell_of(cur, r2, c2) == cell_of(base, r2, c2));
                }
            }
            assert(flood_inv(base, cur, queue@, changes@, row as int, col as int));
        }
        flood(
            &mut self.cells,
            &mut changes,
            &mut queue,
            rows,
            cols,
            Ghost(base),
            Ghost((row as int, col as int)),
        );
        let total = self.cells.len();
        let mut revealed_cnt: usize = 0;
        let mut i: usize = 0;
        while i < total
            invariant
                i <= total,
                total == self@.cells.len(),
                revealed_cnt == count_revealed(self@.cells.take(i as int)),
                revealed_cnt <= i,
            decreases total - i,
        {
            proof {
                assert(self@.cells.take(i as int + 1).drop_last() =~= self@.cells.take(i as int));
                assert(self@.cells.take(i as int + 1).last() == self@.cells[i as int]);
            }
            if self.cells[i].visibility == Visibility::Revealed {
                revealed_cnt = revealed_cnt + 1;
            }
            i = i + 1;
        }
        proof {
            assert(self@.cells.take(total as int) =~= self@.cells);
        }
        let won = revealed_cnt == total - self.mine_count;
        let ghost flood_view = self@;
        if won {
            self.state = GameState::Won;
        }
        proof {
            let post = self@;
            assert(with_cells(base, flood_view.cells) == flood_view);
            lemma_count_mines_pointwise(base.cells, post.cells);
            lemma_counts_correct_preserved(base, post);
            lemma_revealed_count_vs_safe(post.cells);
            assert(count_revealed(post.cells) == revealed_cnt);
            assert(count_mines(post.cells) == base.mine_count);
            if won {
                assert(all_safe_revealed(post));
            } else {
                assert(!all_safe_revealed(post));
            }
            assert(board_wf(post));
            lemma_changes_bridge(pre, base, flood_view, post, changes@);
            lemma_flood_closure(base, flood_view, queue@);
            lemma_closure_bridge(pre, base, flood_view, post);
            lemma_connected_bridge(pre, base, flood_view, post, row as int, col as int);
            lemma_idx_bounds(rows as int, cols as int, row as int, col as int);
            // The clicked cell stayed revealed through the flood.
            assert(cell_of(post, row as int, col as int).visibility == Visibility::Revealed);
            // Mine layout facts carry over to the final state.
            if !pre.placed && zone_fits(pre, row as int, col as int) {
                assert forall|r2: int, c2: int| in_range(post, r2, c2) && ((r2 == row as int && c2
                    == col as int) || is_adjacent(row as int, col as int, r2, c2)) implies !(
                #[trigger] cell_of(post, r2, c2)).has_mine by {
                    lemma_idx_bounds(rows as int, cols as int, r2, c2);
                    assert(!cell_of(base, r2, c2).has_mine);
                }
            }
        }
        Ok((RevealOutcome::Changed, changes))
    }

    /// Builds a board with an explicitly given mine layout, placed eagerly;
    /// the game starts immediately (no first-click relocation applies). The
    /// mine count is the length of `mines`.
    ///
    /// Fails with `InvalidConfiguration` unless the dimensions are valid,
    /// `1 <= mines.len() < rows * cols`, every coordinate is in range and no
    /// coordinate repeats.
    pub fn new_with_mines(rows: usize, cols: usize, mines: &Vec<(usize, usize)>) -> (r: Result<
        Board,
        BoardError,
    >)
        ensures
            (r is Ok) <==> ({
                &&& 1 <= rows <= MAX_DIM
                &&& 1 <= cols <= MAX_DIM
                &&& 1 <= mines@.len() < rows * cols
                &&& forall|k: int| 0 <= k < mines@.len() ==> (#[trigger] mines@[k]).0 < rows
                    && mines@[k].1 < cols
                &&& forall|k1: int, k2: int| 0 <= k1 < k2 < mines@.len() ==> mines@[k1]
                    != mines@[k2]
            }),
            r matches Ok(b) ==> {
                &&& board_wf(b@)
                &&& b@.rows == rows
                &&& b@.cols == cols
                &&& b@.mine_count == mines@.len()
                &&& b@.placed
                &&& b@.state == GameState::InProgress
                &&& forall|i: int| 0 <= i < b@.cells.len() ==> (#[trigger] b@.cells[i]).visibility
                    == Visibility::Hidden
                &&& forall|r2: int, c2: int| in_range(b@, r2, c2)
                    ==> ((#[trigger] cell_of(b@, r2, c2)).has_mine <==> exists|k: int|
                        0 <= k < mines@.len() && (#[trigger] mines@[k]).0 == r2 && mines@[k].1 == c2)
            },
            r matches Err(e) ==> e == BoardError::InvalidConfiguration,
    {
        if rows < 1 || rows > MAX_DIM || cols < 1 || cols > MAX_DIM {
            return Err(BoardError::InvalidConfiguration);
        }
        proof {
            assert(rows * cols <= MAX_DIM * MAX_DIM) by (nonlinear_arith)
                requires
                    rows <= MAX_DIM,
                    cols <= MAX_DIM,
            ;
        }
        let total = rows * cols;
        let k = mines.len();
        if k < 1 || k >= total {
            return Err(BoardError::InvalidConfiguration);
        }
        let mut seen: Vec<bool> = vec![false; total];
        let mut idxs: Vec<usize> = Vec::new();
        let mut j: usize = 0;
        while j < k
            invariant
                j <= k,
                k == mines@.len(),
                1 <= rows <= MAX_DIM,
                1 <= cols <= MAX_DIM,
                total == rows * cols,
                total <= MAX_DIM * MAX_DIM,
                seen@.len() == total,
                idxs@.len() == j,
                forall|x: int| 0 <= x < j ==> (#[trigger] mines@[x]).0 < rows && mines@[x].1 < cols,
                forall|x: int| 0 <= x < j ==> (#[trigger] idxs@[x]) == mines@[x].0 * cols
                    + mines@[x].1 && idxs@[x] < total,
                forall|i: int| 0 <= i < total ==> ((#[trigger] seen@[i]) <==> exists|x: int|
                    0 <= x < j && (#[trigger] idxs@[x]) == i),
                forall|x1: int, x2: int| 0 <= x1 < x2 < j ==> mines@[x1] != mines@[x2],
                seq_nodup(idxs@),
            decreases k - j,
        {
            let coord = mines[j];
            let mr = coord.0;
            let mc = coord.1;
            if mr >= rows || mc >= cols {
                return Err(BoardError::InvalidConfiguration);
            }
            proof {
                lemma_idx_bounds(rows as int, cols as int, mr as int, mc as int);
            }
            let idx = mr * cols + mc;
            if seen[idx] {
                proof {
                    let x = choose|x: int| 0 <= x < j && (#[trigger] idxs@[x]) == idx as int;
                    if !(mines@[x].0 == mr && mines@[x].1 == mc) {
                        lemma_idx_injective(
                            cols as int,
                            mines@[x].0 as int,
                            mines@[x].1 as int,
                            mr as int,
                            mc as int,
                        );
                    }
                    assert(mines@[x] == mines@[j as int]);
                }
                return Err(BoardError::InvalidConfiguration);
            }
            let ghost seen_before = seen@;
            let ghost idxs_before = idxs@;
            seen[idx] = true;
            idxs.push(idx);
            proof {
                assert forall|i: int| 0 <= i < total implies ((#[trigger] seen@[i]) <==> exists|x: int|
                    0 <= x < j + 1 && (#[trigger] idxs@[x]) == i) by {
                    if i == idx as int {
                        assert(idxs@[j as int] == i);
                    } else {
                        assert(seen@[i] == seen_before[i]);
                        if seen_before[i] {
                            let x = choose|x: int| 0 <= x < j && (#[trigger] idxs_before[x]) == i;
                            assert(idxs@[x] == i);
                        }
                        if exists|x: int| 0 <= x < j + 1 && (#[trigger] idxs@[x]) == i {
                            let x = choose|x: int| 0 <= x < j + 1 && (#[trigger] idxs@[x]) == i;
                            assert(x != j as int);
                            assert(idxs_before[x] == i);
                        }
                    }
                }
                assert forall|x1: int, x2: int| 0 <= x1 < x2 < j + 1 implies mines@[x1]
                    != mines@[x2] by {
                    if x2 == j as int && mines@[x1] == mines@[x2] {
                        assert(idxs@[x1] == idx as int);
                        assert(seen_before[idx as int]);
                    }
                }
            }
            j = j + 1;
        }
        let mut cells: Vec<Cell> = Vec::new();
        let mut i: usize = 0;
        while i < total
            invariant
                i <= total,
                cells@.len() == i,
                forall|x: int| 0 <= x < i ==> #[trigger] cells@[x] == (Cell {
                    has_mine: false,
                    adjacent: 0,
                    visibility: Visibility::Hidden,
                }),
            decreases total - i,
        {
            cells.push(Cell { has_mine: false, adjacent: 0, visibility: Visibility::Hidden });
            i = i + 1;
        }
        proof {
            lemma_counts_of_uniform_hidden(cells@);
            lemma_count_mines_zero(cells@);
        }
        let ghost fresh = cells@;
        set_mines(&mut cells, &idxs, k);
        let ghost mid = cells@;
        compute_adjacents(&mut cells, rows, cols);
        let board = Board {
            rows,
            cols,
            mine_count: k,
            cells,
            state: GameState::InProgress,
            placed: true,
            rng: 0x9e3779b97f4a7c15,
        };
        proof {
            let v = board@;
            lemma_count_mines_pointwise(mid, v.cells);
            lemma_count_vis_pointwise(fresh, mid);
            lemma_count_vis_pointwise(mid, v.cells);
            assert(count_mines(v.cells) == k);
            assert(count_revealed(v.cells) == 0);
            lemma_count_revealed_zero(v.cells);
            lemma_counts_bounded(v.cells);
            lemma_exists_safe(v.cells);
            assert(!all_safe_revealed(v));
            assert(counts_correct(v)) by {
                assert forall|r2: int, c2: int| #[trigger] in_range(v, r2, c2) implies cell_of(
                    v,
                    r2,
                    c2,
                ).adjacent == adj_mines(v, r2, c2) by {
                    lemma_idx_bounds(rows as int, cols as int, r2, c2);
                }
            }
            assert forall|r2: int, c2: int| in_range(v, r2, c2)
                implies ((#[trigger] cell_of(v, r2, c2)).has_mine <==> exists|x: int|
                0 <= x < mines@.len() && (#[trigger] mines@[x]).0 == r2 && mines@[x].1 == c2) by {
                lemma_idx_bounds(rows as int, cols as int, r2, c2);
                let i2 = r2 * cols as int + c2;
                if cell_of(v, r2, c2).has_mine {
                    let x = choose|x: int| 0 <= x < k && (#[trigger] idxs@[x]) == i2;
                    if !(mines@[x].0 == r2 && mines@[x].1 == c2) {
                        lemma_idx_injective(
                            cols as int,
                            mines@[x].0 as int,
                            mines@[x].1 as int,
                            r2,
                            c2,
                        );
                    }
                }
                if exists|x: int| 0 <= x < mines@.len() && (#[trigger] mines@[x]).0 == r2
                    && mines@[x].1 == c2 {
                    let x = choose|x: int| 0 <= x < mines@.len() && (#[trigger] mines@[x]).0 == r2
                        && mines@[x].1 == c2;
                    assert(idxs@[x] == i2);
                    assert(mid[i2].has_mine);
                }
            }
        }
        Ok(board)
    }
}

pub open spec fn count_hidden(cells: Seq<Cell>) -> nat
    decreases cells.len(),
{
    if cells.len() == 0 {
        0
    } else {
        count_hidden(cells.drop_last())
            + if cells.last().visibility == Visibility::Hidden { 1nat } else { 0nat }
    }
}

/// Row-major index arithmetic: `(r, c) -> r * cols + c` lands inside the
/// grid and is inverted by division and remainder.
pub proof fn lemma_idx_bounds(rows: int, cols: int, r: int, c: int)
    requires
        1 <= cols,
        0 <= r < rows,
        0 <= c < cols,
    ensures
        0 <= r * cols + c < rows * cols,
        (r * cols + c) / cols == r,
        (r * cols + c) % cols == c,
{
    assert(0 <= r * cols + c < rows * cols) by (nonlinear_arith)
        requires
            1 <= cols,
            0 <= r < rows,
            0 <= c < cols,
    ;
    lemma_fundamental_div_mod_converse(r * cols + c, cols, r, c);
}

/// The inverse direction: any index below `rows * cols` decomposes into an
/// in-range `(r, c)` pair.
pub proof fn lemma_idx_inverse(rows: int, cols: int, i: int)
    requires
        1 <= rows,
        1 <= cols,
        0 <= i < rows * cols,
    ensures
        0 <= i / cols < rows,
        0 <= i % cols < cols,
        (i / cols) * cols + (i % cols) == i,
{
    vstd::arithmetic::div_mod::lemma_fundamental_div_mod(i, cols);
    vstd::arithmetic::div_mod::lemma_mod_bound(i, cols);
    vstd::arithmetic::div_mod::lemma_div_pos_is_pos(i, cols);
    if i / cols >= rows {
        vstd::arithmetic::mul::lemma_mul_inequality(rows, i / cols, cols);
        assert(rows * cols <= (i / cols) * cols);
        assert(cols * (i / cols) == (i / cols) * cols) by (nonlinear_arith);
        assert(false);
    }
    assert(cols * (i / cols) == (i / cols) * cols) by (nonlinear_arith);
}

/// Distinct coordinates give distinct row-major indices.
pub proof fn lemma_idx_injective(cols: int, r1: int, c1: int, r2: int, c2: int)
    requires
        1 <= cols,
        0 <= r1,
        0 <= c1 < cols,
        0 <= r2,
        0 <= c2 < cols,
        !(r1 == r2 && c1 == c2),
    ensures
        r1 * cols + c1 != r2 * cols + c2,
{
    if r1 * cols + c1 == r2 * cols + c2 {
        lemma_fundamental_div_mod_converse(r1 * cols + c1, cols, r1, c1);
        lemma_fundamental_div_mod_converse(r2 * cols + c2, cols, r2, c2);
    }
}

/// How `count_mines` changes when one cell is overwritten.
pub proof fn lemma_count_mines_update(cells: Seq<Cell>, i: int, cell: Cell)
    requires
        0 <= i < cells.len(),
    ensures
        count_mines(cells.update(i, cell)) == count_mines(cells)
            - (if cells[i].has_mine { 1int } else { 0int })
            + (if cell.has_mine { 1int } else { 0int }),
    decreases cells.len(),
{
    let updated = cells.update(i, cell);
    if i == cells.len() - 1 {
        assert(updated.drop_last() =~= cells.drop_last());
    } else {
        assert(updated.drop_last() =~= cells.drop_last().update(i, cell));
        lemma_count_mines_update(cells.drop_last(), i, cell);
    }
}

/// How `count_revealed` changes when one cell is overwritten.
pub proof fn lemma_count_revealed_update(cells: Seq<Cell>, i: int, cell: Cell)
    requires
        0 <= i < cells.len(),
    ensures
        count_revealed(cells.update(i, cell)) == count_revealed(cells)
            - (if cells[i].visibility == Visibility::Revealed { 1int } else { 0int })
            + (if cell.visibility == Visibility::Revealed { 1int } else { 0int }),
    decreases cells.len(),
{
    let updated = cells.update(i, cell);
    if i == cells.len() - 1 {
        assert(updated.drop_last() =~= cells.drop_last());
    } else {
        assert(updated.drop_last() =~= cells.drop_last().update(i, cell));
        lemma_count_revealed_update(cells.drop_last(), i, cell);
    }
}

/// Counts never exceed the length.
pub proof fn lemma_counts_bounded(cells: Seq<Cell>)
    ensures
        count_mines(cells) <= cells.len(),
        count_revealed(cells) <= cells.len(),
        count_hidden(cells) <= cells.len(),
    decreases cells.len(),
{
    if cells.len() > 0 {
        lemma_counts_bounded(cells.drop_last());
    }
}

/// Pigeonhole: fewer mines than cells leaves some safe cell.
pub proof fn lemma_exists_safe(cells: Seq<Cell>)
    requires
        count_mines(cells) < cells.len(),
    ensures
        exists|i: int| 0 <= i < cells.len() && !(#[trigger] cells[i]).has_mine,
    decreases cells.len(),
{
    if cells.last().has_mine {
        lemma_exists_safe(cells.drop_last());
        let j = choose|j: int| 0 <= j < cells.drop_last().len() && !(#[trigger] cells.drop_last()[j]).has_mine;
        assert(cells[j] == cells.drop_last()[j]);
    } else {
        assert(!cells[cells.len() - 1].has_mine);
    }
}

/// With no revealed cell counted, no cell is revealed.
pub proof fn lemma_count_revealed_zero(cells: Seq<Cell>)
    requires
        count_revealed(cells) == 0,
    ensures
        forall|i: int| 0 <= i < cells.len()
            ==> (#[trigger] cells[i]).visibility != Visibility::Revealed,
    decreases cells.len(),
{
    if cells.len() > 0 {
        lemma_count_revealed_zero(cells.drop_last());
        assert forall|i: int| 0 <= i < cells.len()
            implies (#[trigger] cells[i]).visibility != Visibility::Revealed by {
            if i < cells.len() - 1 {
                assert(cells[i] == cells.drop_last()[i]);
            }
        }
    }
}

/// A sequence whose revealed cells are exactly the safe cells has
/// `len - count_mines` revealed cells, and a sequence missing a safe
/// revealed cell has strictly fewer. This ties the executable win check
/// (counting) to the logical winning condition (a quantifier).
pub proof fn lemma_revealed_count_vs_safe(cells: Seq<Cell>)
    requires
        forall|i: int| 0 <= i < cells.len() && (#[trigger] cells[i]).has_mine
            ==> cells[i].visibility != Visibility::Revealed,
    ensures
        count_revealed(cells) + count_mines(cells) <= cells.len(),
        (count_revealed(cells) + count_mines(cells) == cells.len() <==> forall|i: int|
            0 <= i < cells.len() && !(#[trigger] cells[i]).has_mine
                ==> cells[i].visibility == Visibility::Revealed),
    decreases cells.len(),
{
    if cells.len() == 0 {
    } else {
        let prefix = cells.drop_last();
        assert forall|i: int| 0 <= i < prefix.len() && (#[trigger] prefix[i]).has_mine
            implies prefix[i].visibility != Visibility::Revealed by {
            assert(prefix[i] == cells[i]);
        }
        lemma_revealed_count_vs_safe(prefix);
        if count_revealed(cells) + count_mines(cells) == cells.len() {
            assert forall|i: int| 0 <= i < cells.len() && !(#[trigger] cells[i]).has_mine
                implies cells[i].visibility == Visibility::Revealed by {
                if i < cells.len() - 1 {
                    assert(cells[i] == prefix[i]);
                }
            }
        }
        if forall|i: int| 0 <= i < cells.len() && !(#[trigger] cells[i]).has_mine
            ==> cells[i].visibility == Visibility::Revealed {
            assert forall|i: int| 0 <= i < prefix.len() && !(#[trigger] prefix[i]).has_mine
                implies prefix[i].visibility == Visibility::Revealed by {
                assert(prefix[i] == cells[i]);
            }
        }
    }
}

/// With no mine counted, no cell carries one.
pub proof fn lemma_count_mines_zero(cells: Seq<Cell>)
    requires
        count_mines(cells) == 0,
    ensures
        forall|i: int| 0 <= i < cells.len() ==> !(#[trigger] cells[i]).has_mine,
    decreases cells.len(),
{
    if cells.len() > 0 {
        lemma_count_mines_zero(cells.drop_last());
        assert forall|i: int| 0 <= i < cells.len() implies !(#[trigger] cells[i]).has_mine by {
            if i < cells.len() - 1 {
                assert(cells[i] == cells.drop_last()[i]);
            }
        }
    }
}

/// The mine count only looks at the mine flags, pointwise.
pub proof fn lemma_count_mines_pointwise(a: Seq<Cell>, b: Seq<Cell>)
    requires
        a.len() == b.len(),
        forall|i: int| 0 <= i < a.len() ==> (#[trigger] a[i]).has_mine == b[i].has_mine,
    ensures
        count_mines(a) == count_mines(b),
    decreases a.len(),
{
    if a.len() > 0 {
        assert forall|i: int| 0 <= i < a.drop_last().len()
            implies (#[trigger] a.drop_last()[i]).has_mine == b.drop_last()[i].has_mine by {
            assert(a.drop_last()[i] == a[i]);
            assert(b.drop_last()[i] == b[i]);
        }
        lemma_count_mines_pointwise(a.drop_last(), b.drop_last());
        assert(a.last() == a[a.len() - 1]);
        assert(b.last() == b[a.len() - 1]);
    }
}

/// The visibility counts only look at the visibility, pointwise.
pub proof fn lemma_count_vis_pointwise(a: Seq<Cell>, b: Seq<Cell>)
    requires
        a.len() == b.len(),
        forall|i: int| 0 <= i < a.len() ==> (#[trigger] a[i]).visibility == b[i].visibility,
    ensures
        count_revealed(a) == count_revealed(b),
        count_hidden(a) == count_hidden(b),
    decreases a.len(),
{
    if a.len() > 0 {
        assert forall|i: int| 0 <= i < a.drop_last().len()
            implies (#[trigger] a.drop_last()[i]).visibility == b.drop_last()[i].visibility by {
            assert(a.drop_last()[i] == a[i]);
            assert(b.drop_last()[i] == b[i]);
        }
        lemma_count_vis_pointwise(a.drop_last(), b.drop_last());
        assert(a.last() == a[a.len() - 1]);
        assert(b.last() == b[a.len() - 1]);
    }
}

/// Multiplier of the linear congruential generator that drives placement.
pub const RNG_MUL: u64 = 0x5851f42d4c957f2d;

/// Increment of the linear congruential generator.
pub const RNG_INC: u64 = 0x14057b7ef767814f;

/// One step of the generator, as a mathematical function.
pub open spec fn rng_next(s: u64) -> int {
    (s as int * RNG_MUL as int + RNG_INC as int) % 0x1_0000_0000_0000_0000
}

/// Advances the mine-placement generator by one step.
fn rng_step(s: u64) -> (r: u64)
    ensures
        r as int == rng_next(s),
{
    proof {
        assert((s as u128) * (RNG_MUL as u128) + (RNG_INC as u128)
            <= 0xffff_ffff_ffff_ffff_ffff_ffff_ffff_ffffu128) by (nonlinear_arith)
            requires
                s <= 0xffff_ffff_ffff_ffffu64,
        ;
    }
    let wide: u128 = (s as u128) * (RNG_MUL as u128) + (RNG_INC as u128);
    (wide % 0x1_0000_0000_0000_0000u128) as u64
}

/// No value occurs twice.
pub open spec fn seq_nodup(s: Seq<usize>) -> bool {
    forall|k1: int, k2: int| 0 <= k1 < k2 < s.len() ==> s[k1] != s[k2]
}

/// Index `i` lies in the first-click exclusion zone around `(tr, tc)`:
/// the cell itself or one of its 8 neighbors.
pub open spec fn in_zone(cols: int, tr: int, tc: int, i: int) -> bool {
    let r = i / cols;
    let c = i % cols;
    (r == tr && c == tc) || is_adjacent(tr, tc, r, c)
}

/// Number of indices below `n` that lie in the exclusion zone.
pub open spec fn zone_count(cols: int, tr: int, tc: int, n: int) -> nat
    decreases n,
{
    if n <= 0 {
        0
    } else {
        zone_count(cols, tr, tc, n - 1) + if in_zone(cols, tr, tc, n - 1) { 1nat } else { 0nat }
    }
}

/// The board has room to keep the whole 3x3 first-click zone around
/// `(tr, tc)` free of mines.
pub open spec fn zone_fits(v: BoardView, tr: int, tc: int) -> bool {
    v.rows * v.cols - zone_count(v.cols, tr, tc, v.rows * v.cols) >= v.mine_count
}

/// No mine sits on `(tr, tc)` or any of its 8 neighbors.
pub open spec fn zone_mine_free(v: BoardView, tr: int, tc: int) -> bool {
    forall|r: int, c: int| in_range(v, r, c) && ((r == tr && c == tc) || is_adjacent(tr, tc, r, c))
        ==> !(#[trigger] cell_of(v, r, c)).has_mine
}

/// Swapping two positions keeps the length, keeps distinctness, and keeps
/// every value drawn from the original sequence.
proof fn lemma_swap_preserves(s: Seq<usize>, a: int, b: int)
    requires
        0 <= a < s.len(),
        0 <= b < s.len(),
    ensures
        s.update(a, s[b]).update(b, s[a]).len() == s.len(),
        seq_nodup(s) ==> seq_nodup(s.update(a, s[b]).update(b, s[a])),
        forall|j: int| 0 <= j < s.len() ==> s.contains(#[trigger] s.update(a, s[b]).update(b, s[a])[j]),
{
    let s2 = s.update(a, s[b]).update(b, s[a]);
    assert forall|j: int| 0 <= j < s.len() implies s.contains(#[trigger] s2[j]) by {
        if j == b {
            assert(s2[j] == s[a]);
        } else if j == a {
            assert(s2[j] == s[b]);
        } else {
            assert(s2[j] == s[j]);
        }
    }
    if seq_nodup(s) {
        assert forall|k1: int, k2: int| 0 <= k1 < k2 < s2.len() implies s2[k1] != s2[k2] by {
            let m1 = if k1 == b { a } else if k1 == a { b } else { k1 };
            let m2 = if k2 == b { a } else if k2 == a { b } else { k2 };
            assert(s2[k1] == s[m1]);
            assert(s2[k2] == s[m2]);
        }
    }
}

/// Collects the indices where a mine may be placed for a first click at
/// `(row, col)`. With `zone_mode` the whole 3x3 neighborhood of the click is
/// excluded; without it only the clicked cell itself is.
fn collect_candidates(rows: usize, cols: usize, row: usize, col: usize, zone_mode: bool) -> (cands:
    Vec<usize>)
    requires
        1 <= rows <= MAX_DIM,
        1 <= cols <= MAX_DIM,
        row < rows,
        col < cols,
    ensures
        forall|k: int| 0 <= k < cands@.len() ==> (#[trigger] cands@[k]) < rows * cols,
        seq_nodup(cands@),
        zone_mode ==> cands@.len() == rows * cols - zone_count(
            cols as int,
            row as int,
            col as int,
            (rows * cols) as int,
        ) && forall|k: int| 0 <= k < cands@.len() ==> !in_zone(
            cols as int,
            row as int,
            col as int,
            (#[trigger] cands@[k]) as int,
        ),
        !zone_mode ==> cands@.len() == rows * cols - 1 && forall|k: int| 0 <= k < cands@.len()
            ==> (#[trigger] cands@[k]) as int != row * cols + col,
{
    proof {
        assert(rows * cols <= MAX_DIM * MAX_DIM) by (nonlinear_arith)
            requires
                rows <= MAX_DIM,
                cols <= MAX_DIM,
        ;
        lemma_idx_bounds(rows as int, cols as int, row as int, col as int);
    }
    let total = rows * cols;
    let target = row * cols + col;
    let mut cands: Vec<usize> = Vec::new();
    let mut i: usize = 0;
    while i < total
        invariant
            1 <= rows <= MAX_DIM,
            1 <= cols <= MAX_DIM,
            row < rows,
            col < cols,
            total == rows * cols,
            total <= MAX_DIM * MAX_DIM,
            target == row * cols + col,
            i <= total,
            forall|k: int| 0 <= k < cands@.len() ==> (#[trigger] cands@[k]) < i,
            forall|k1: int, k2: int| 0 <= k1 < k2 < cands@.len() ==> cands@[k1] < cands@[k2],
            zone_mode ==> cands@.len() == i - zone_count(
                cols as int,
                row as int,
                col as int,
                i as int,
            ) && forall|k: int| 0 <= k < cands@.len() ==> !in_zone(
                cols as int,
                row as int,
                col as int,
                (#[trigger] cands@[k]) as int,
            ),
            !zone_mode ==> cands@.len() == i - (if i > target { 1int } else { 0int })
                && forall|k: int| 0 <= k < cands@.len() ==> (#[trigger] cands@[k]) != target,
        decreases total - i,
    {
        let keep: bool;
        if zone_mode {
            let r = i / cols;
            let c = i % cols;
            proof {
                lemma_idx_inverse(rows as int, cols as int, i as int);
                assert(zone_count(cols as int, row as int, col as int, i as int + 1) == zone_count(
                    cols as int,
                    row as int,
                    col as int,
                    i as int,
                ) + if in_zone(cols as int, row as int, col as int, i as int) { 1nat } else { 0nat });
            }
            let inz = r + 1 >= row && r <= row + 1 && c + 1 >= col && c <= col + 1;
            keep = !inz;
        } else {
            keep = i != target;
        }
        if keep {
            cands.push(i);
        }
        i = i + 1;
    }
    proof {
        if !zone_mode {
            assert(i > target);
        }
    }
    cands
}

/// Pseudo-randomly permutes the first `k` entries of `cands` (a partial
/// Fisher-Yates shuffle), returning the advanced generator state.
fn shuffle_prefix(rng0: u64, cands: &mut Vec<usize>, k: usize) -> (rng: u64)
    requires
        k <= old(cands)@.len(),
        seq_nodup(old(cands)@),
    ensures
        final(cands)@.len() == old(cands)@.len(),
        seq_nodup(final(cands)@),
        forall|j: int| 0 <= j < final(cands)@.len() ==> old(cands)@.contains(
            #[trigger] final(cands)@[j],
        ),
{
    let ghost orig = cands@;
    let mut rng = rng0;
    let mut j: usize = 0;
    while j < k
        invariant
            j <= k,
            k <= cands@.len(),
            cands@.len() == orig.len(),
            seq_nodup(cands@),
            forall|x: int| 0 <= x < cands@.len() ==> orig.contains(#[trigger] cands@[x]),
            seq_nodup(orig),
        decreases k - j,
    {
        let m = cands.len() - j;
        rng = rng_step(rng);
        let off = (rng % (m as u64)) as usize;
        let b = j + off;
        let ghost before = cands@;
        let va = cands[j];
        let vb = cands[b];
        cands[j] = vb;
        cands[b] = va;
        proof {
            lemma_swap_preserves(before, j as int, b as int);
            assert(cands@ =~= before.update(j as int, before[b as int]).update(
                b as int,
                before[j as int],
            ));
            assert forall|x: int| 0 <= x < cands@.len() implies orig.contains(
                #[trigger] cands@[x],
            ) by {
                assert(before.contains(cands@[x]));
                let w = choose|w: int| 0 <= w < before.len() && before[w] == cands@[x];
                assert(orig.contains(before[w]));
            }
        }
        j = j + 1;
    }
    rng
}

/// Plants a mine on the first `k` indices of `idxs`, leaving visibility and
/// cached counts of every cell untouched.
fn set_mines(cells: &mut Vec<Cell>, idxs: &Vec<usize>, k: usize)
    requires
        k <= idxs@.len(),
        forall|j: int| 0 <= j < idxs@.len() ==> (#[trigger] idxs@[j]) < old(cells)@.len(),
        seq_nodup(idxs@),
        forall|i: int| 0 <= i < old(cells)@.len() ==> !(#[trigger] old(cells)@[i]).has_mine,
        count_mines(old(cells)@) == 0,
    ensures
        final(cells)@.len() == old(cells)@.len(),
        count_mines(final(cells)@) == k,
        forall|i: int| 0 <= i < final(cells)@.len() ==> ((#[trigger] final(cells)@[i]).has_mine
            <==> exists|j: int| 0 <= j < k && (#[trigger] idxs@[j]) == i),
        forall|i: int| 0 <= i < final(cells)@.len() ==> (#[trigger] final(cells)@[i]).visibility
            == old(cells)@[i].visibility && final(cells)@[i].adjacent == old(cells)@[i].adjacent,
{
    let ghost orig = cells@;
    let mut j: usize = 0;
    while j < k
        invariant
            j <= k,
            k <= idxs@.len(),
            forall|x: int| 0 <= x < idxs@.len() ==> (#[trigger] idxs@[x]) < orig.len(),
            seq_nodup(idxs@),
            cells@.len() == orig.len(),
            count_mines(cells@) == j,
            forall|i: int| 0 <= i < cells@.len() ==> ((#[trigger] cells@[i]).has_mine
                <==> exists|jj: int| 0 <= jj < j && (#[trigger] idxs@[jj]) == i),
            forall|i: int| 0 <= i < cells@.len() ==> (#[trigger] cells@[i]).visibility
                == orig[i].visibility && cells@[i].adjacent == orig[i].adjacent,
        decreases k - j,
    {
        let idx = idxs[j];
        let cur = cells[idx];
        let ghost before = cells@;
        proof {
            if before[idx as int].has_mine {
                let jj = choose|jj: int| 0 <= jj < j && (#[trigger] idxs@[jj]) == idx as int;
                assert(idxs@[jj] == idxs@[j as int]);
                assert(false);
            }
        }
        let planted = Cell { has_mine: true, adjacent: cur.adjacent, visibility: cur.visibility };
        cells[idx] = planted;
        proof {
            assert(cells@ =~= before.update(idx as int, planted));
            lemma_count_mines_update(before, idx as int, planted);
            assert forall|i: int| 0 <= i < cells@.len() implies ((#[trigger] cells@[i]).has_mine
                <==> exists|jj: int| 0 <= jj < j + 1 && (#[trigger] idxs@[jj]) == i) by {
                if i == idx as int {
                    assert(idxs@[j as int] == i);
                } else {
                    if cells@[i].has_mine {
                        let jj = choose|jj: int| 0 <= jj < j && (#[trigger] idxs@[jj]) == i;
                        assert(0 <= jj < j + 1 && idxs@[jj] == i);
                    }
                    if exists|jj: int| 0 <= jj < j + 1 && (#[trigger] idxs@[jj]) == i {
                        let jj = choose|jj: int| 0 <= jj < j + 1 && (#[trigger] idxs@[jj]) == i;
                        assert(jj != j as int);
                    }
                }
            }
        }
        j = j + 1;
    }
}

/// Indicator for a mine on the neighbor `(nr1 - 1, nc1 - 1)`; the shifted
/// coordinates keep the arithmetic unsigned. Out-of-range neighbors count 0.
fn neighbor_mine(cells: &Vec<Cell>, rows: usize, cols: usize, nr1: usize, nc1: usize) -> (r: u8)
    requires
        1 <= rows <= MAX_DIM,
        1 <= cols <= MAX_DIM,
        cells@.len() == rows * cols,
        nr1 <= rows + 1,
        nc1 <= cols + 1,
    ensures
        r as nat == grid_mine_ind(cells@, rows as int, cols as int, nr1 as int - 1, nc1 as int - 1),
        r <= 1,
{
    if nr1 >= 1 && nr1 <= rows && nc1 >= 1 && nc1 <= cols {
        proof {
            assert(rows * cols <= MAX_DIM * MAX_DIM) by (nonlinear_arith)
                requires
                    rows <= MAX_DIM,
                    cols <= MAX_DIM,
            ;
            lemma_idx_bounds(rows as int, cols as int, nr1 as int - 1, nc1 as int - 1);
        }
        let ni = (nr1 - 1) * cols + (nc1 - 1);
        if cells[ni].has_mine {
            1
        } else {
            0
        }
    } else {
        0
    }
}

/// Recomputes the cached `adjacent` count of every cell from the mine
/// layout; mine flags and visibility are untouched.
fn compute_adjacents(cells0: &mut Vec<Cell>, rows: usize, cols: usize)
    requires
        1 <= rows <= MAX_DIM,
        1 <= cols <= MAX_DIM,
        old(cells0)@.len() == rows * cols,
    ensures
        final(cells0)@.len() == old(cells0)@.len(),
        forall|i: int| 0 <= i < final(cells0)@.len() ==> (#[trigger] final(cells0)@[i]).has_mine
            == old(cells0)@[i].has_mine && final(cells0)@[i].visibility == old(
            cells0,
        )@[i].visibility,
        forall|r: int, c: int| 0 <= r < rows && 0 <= c < cols
            ==> (#[trigger] final(cells0)@[r * (cols as int) + c]).adjacent as nat == grid_adj_mines(
                final(cells0)@,
                rows as int,
                cols as int,
                r,
                c,
            ),
{
    let cells = &*cells0;
    proof {
        assert(rows * cols <= MAX_DIM * MAX_DIM) by (nonlinear_arith)
            requires
                rows <= MAX_DIM,
                cols <= MAX_DIM,
        ;
    }
    let total = cells.len();
    let mut out: Vec<Cell> = Vec::new();
    let mut i: usize = 0;
    while i < total
        invariant
            1 <= rows <= MAX_DIM,
            1 <= cols <= MAX_DIM,
            total == rows * cols,
            total <= MAX_DIM * MAX_DIM,
            cells@.len() == total,
            i <= total,
            out@.len() == i,
            forall|x: int| 0 <= x < i ==> (#[trigger] out@[x]).has_mine == cells@[x].has_mine
                && out@[x].visibility == cells@[x].visibility,
            forall|r: int, c: int| 0 <= r < rows && 0 <= c < cols && r * (cols as int) + c < i
                ==> (#[trigger] out@[r * (cols as int) + c]).adjacent as nat == grid_adj_mines(
                    cells@,
                    rows as int,
                    cols as int,
                    r,
                    c,
                ),
        decreases total - i,
    {
        let r = i / cols;
        let c = i % cols;
        proof {
            lemma_idx_inverse(rows as int, cols as int, i as int);
        }
        let cnt: u8 = neighbor_mine(cells, rows, cols, r, c) + neighbor_mine(
            cells,
            rows,
            cols,
            r,
            c + 1,
        ) + neighbor_mine(cells, rows, cols, r, c + 2) + neighbor_mine(cells, rows, cols, r + 1, c)
            + neighbor_mine(cells, rows, cols, r + 1, c + 2) + neighbor_mine(
            cells,
            rows,
            cols,
            r + 2,
            c,
        ) + neighbor_mine(cells, rows, cols, r + 2, c + 1) + neighbor_mine(
            cells,
            rows,
            cols,
            r + 2,
            c + 2,
        );
        proof {
            assert(cnt as nat == grid_adj_mines(cells@, rows as int, cols as int, r as int, c as int));
        }
        let cur = cells[i];
        out.push(Cell { has_mine: cur.has_mine, adjacent: cnt, visibility: cur.visibility });
        proof {
            assert forall|r2: int, c2: int| 0 <= r2 < rows && 0 <= c2 < cols && r2 * (cols as int)
                + c2 < i + 1 implies (#[trigger] out@[r2 * (cols as int) + c2]).adjacent as nat
                == grid_adj_mines(cells@, rows as int, cols as int, r2, c2) by {
                lemma_idx_bounds(rows as int, cols as int, r2, c2);
                if r2 * (cols as int) + c2 == i as int {
                    assert(r2 == i as int / cols as int);
                    assert(c2 == i as int % cols as int);
                }
            }
        }
        i = i + 1;
    }
    proof {
        assert forall|r2: int, c2: int| true implies grid_mine_ind(
            out@,
            rows as int,
            cols as int,
            r2,
            c2,
        ) == grid_mine_ind(cells@, rows as int, cols as int, r2, c2) by {
            if 0 <= r2 < rows && 0 <= c2 < cols {
                lemma_idx_bounds(rows as int, cols as int, r2, c2);
            }
        }
        assert forall|r2: int, c2: int| 0 <= r2 < rows && 0 <= c2 < cols
            implies (#[trigger] out@[r2 * (cols as int) + c2]).adjacent as nat == grid_adj_mines(
            out@,
            rows as int,
            cols as int,
            r2,
            c2,
        ) by {
            lemma_idx_bounds(rows as int, cols as int, r2, c2);
            assert(out@[r2 * (cols as int) + c2].adjacent as nat == grid_adj_mines(
                cells@,
                rows as int,
                cols as int,
                r2,
                c2,
            ));
            assert(grid_adj_mines(out@, rows as int, cols as int, r2, c2) == grid_adj_mines(
                cells@,
                rows as int,
                cols as int,
                r2,
                c2,
            ));
        }
    }
    *cells0 = out;
}

proof fn lemma_counts_of_uniform_hidden(cells: Seq<Cell>)
    requires
        forall|j: int| 0 <= j < cells.len() ==> #[trigger] cells[j] == (Cell {
            has_mine: false,
            adjacent: 0,
            visibility: Visibility::Hidden,
        }),
    ensures
        count_mines(cells) == 0,
        count_revealed(cells) == 0,
    decreases cells.len(),
{
    if cells.len() > 0 {
        lemma_counts_of_uniform_hidden(cells.drop_last());
    }
}

} // verus!
