//! The game controller: owns the board and the grid layout, tracks the
//! pointer and the hovered cell, and turns pointer and resize events into
//! board operations. A left press reveals the hovered cell, a right press
//! toggles its flag, a double press chords: it reveals every unflagged
//! neighbor of the hovered cell. Actions commit on press.

use vstd::prelude::*;

use crate::board::all_mines_revealed;
use crate::board::all_safe_revealed;
use crate::board::board_wf;
use crate::board::cell_of;
use crate::board::changes_coords_exact;
use crate::board::flag_blocked;
use crate::board::in_range;
use crate::board::is_adjacent;
use crate::board::lemma_changes_compose;
use crate::board::lemma_changes_refl;
use crate::board::listed;
use crate::board::noff;
use crate::board::mine_at;
use crate::board::mines_unchanged;
use crate::board::reveal_blocked;
use crate::board::reveal_monotonic;
use crate::board::same_config;
use crate::board::revealed_connected;
use crate::board::zero_region_closed;
use crate::board::Board;
use crate::board::BoardError;
use crate::board::BoardView;
use crate::board::GameState;
use crate::board::RevealOutcome;
use crate::board::Visibility;
use crate::grid::hit_test_spec;
use crate::grid::layout_wf;
use crate::grid::GridLayout;
use crate::grid::MAX_PIXEL;

verus! {

/// The mathematical view of a running game.
pub struct GameView {
    pub board: BoardView,
    pub layout: GridLayout,
    pub pointer: Option<(i64, i64)>,
    pub hover: Option<(usize, usize)>,
}

/// The hovered cell is exactly what the layout's hit test says of the last
/// pointer position.
pub open spec fn hover_ok(g: GameView) -> bool {
    match g.pointer {
        Option::None => g.hover is None,
        Option::Some(p) => match g.hover {
            Option::Some(h) => hit_test_spec(g.layout, p.0 as int, p.1 as int) == Option::Some(
                (h.0 as int, h.1 as int),
            ),
            Option::None => hit_test_spec(g.layout, p.0 as int, p.1 as int) is None,
        },
    }
}

/// Well-formedness of the whole game: a well-formed board, a well-formed
/// layout of the same dimensions, and a hover in lockstep with the pointer.
pub open spec fn game_wf(g: GameView) -> bool {
    &&& board_wf(g.board)
    &&& layout_wf(g.layout)
    &&& g.layout.rows == g.board.rows
    &&& g.layout.cols == g.board.cols
    &&& hover_ok(g)
    &&& (match g.hover {
        Option::Some(h) => h.0 < g.board.rows && h.1 < g.board.cols,
        Option::None => true,
    })
}

/// What a committed left press (a reveal) on the hovered cell `(hr, hc)`
/// does: exactly the contract of `Board::reveal_cell` on an in-range cell.
pub open spec fn reveal_press_post(
    pre: BoardView,
    post: BoardView,
    hr: int,
    hc: int,
    outcome: RevealOutcome,
    changes: Seq<(usize, usize)>,
) -> bool {
    &&& (outcome == RevealOutcome::NoChange <==> reveal_blocked(pre, hr, hc))
    &&& (reveal_blocked(pre, hr, hc) ==> post == pre && changes.len() == 0)
    &&& (!reveal_blocked(pre, hr, hc) ==> {
        &&& post.placed
        &&& reveal_monotonic(pre, post)
        &&& (pre.placed ==> mines_unchanged(pre, post))
        &&& changes_coords_exact(pre, post, changes)
        &&& cell_of(post, hr, hc).visibility == Visibility::Revealed
        &&& (outcome == RevealOutcome::Exploded <==> cell_of(post, hr, hc).has_mine)
        &&& (cell_of(post, hr, hc).has_mine ==> post.state == GameState::Lost
            && all_mines_revealed(post) && forall|r2: int, c2: int| #[trigger] mine_at(
            post,
            r2,
            c2,
        ) ==> listed(changes, r2, c2))
        &&& (!cell_of(post, hr, hc).has_mine ==> (post.state == GameState::Won
            <==> all_safe_revealed(post)) && zero_region_closed(pre, post) && revealed_connected(
            pre,
            post,
            hr,
            hc,
        ) && (post.state == GameState::Won || post.state == GameState::InProgress))
        &&& (!pre.placed ==> !cell_of(post, hr, hc).has_mine && outcome
            != RevealOutcome::Exploded)
    })
}

/// What a committed right press (a flag toggle) on the hovered cell does.
pub open spec fn flag_press_post(
    pre: BoardView,
    post: BoardView,
    h: (usize, usize),
    outcome: RevealOutcome,
    changes: Seq<(usize, usize)>,
) -> bool {
    let hr = h.0 as int;
    let hc = h.1 as int;
    &&& (outcome == RevealOutcome::NoChange <==> flag_blocked(pre, hr, hc))
    &&& (flag_blocked(pre, hr, hc) ==> post == pre && changes.len() == 0)
    &&& (!flag_blocked(pre, hr, hc) ==> {
        &&& outcome == RevealOutcome::Changed
        &&& changes.len() == 1 && changes[0] == h
        &&& cell_of(post, hr, hc).visibility == (if cell_of(pre, hr, hc).visibility
            == Visibility::Hidden {
            Visibility::Flagged
        } else {
            Visibility::Hidden
        })
        &&& post.state == pre.state
    })
}

/// What a committed chord (double press) around the hovered cell does: an
/// exact change list, no change exactly when nothing happened, a loss
/// exactly reported, and - while the game runs and nothing exploded - every
/// safe, hidden, unflagged neighbor of the hovered cell opened.
pub open spec fn chord_press_post(
    pre: BoardView,
    post: BoardView,
    hr: int,
    hc: int,
    outcome: RevealOutcome,
    changes: Seq<(usize, usize)>,
) -> bool {
    &&& reveal_monotonic(pre, post)
    &&& (pre.placed ==> mines_unchanged(pre, post))
    &&& changes_coords_exact(pre, post, changes)
    &&& (outcome == RevealOutcome::NoChange <==> post == pre)
    &&& (outcome == RevealOutcome::Exploded ==> post.state == GameState::Lost)
    &&& ((pre.state == GameState::NotStarted || pre.state == GameState::InProgress) && outcome
        != RevealOutcome::Exploded ==> forall|r2: int, c2: int|
        in_range(pre, r2, c2) && #[trigger] is_adjacent(hr, hc, r2, c2) && cell_of(
            pre,
            r2,
            c2,
        ).visibility == Visibility::Hidden && !cell_of(post, r2, c2).has_mine ==> cell_of(
            post,
            r2,
            c2,
        ).visibility == Visibility::Revealed)
}

/// What a committed press does, by button: left = reveal, right = flag,
/// double = chord; with no cell hovered, nothing at all.
pub open spec fn press_post(
    hover: Option<(usize, usize)>,
    pre: BoardView,
    post: BoardView,
    is_right: bool,
    is_double: bool,
    outcome: RevealOutcome,
    changes: Seq<(usize, usize)>,
) -> bool {
    match hover {
        Option::None => post == pre && outcome == RevealOutcome::NoChange && changes.len() == 0,
        Option::Some(h) => {
            &&& (!is_right && !is_double ==> reveal_press_post(
                pre,
                post,
                h.0 as int,
                h.1 as int,
                outcome,
                changes,
            ))
            &&& (is_right && !is_double ==> flag_press_post(pre, post, h, outcome, changes))
            &&& (is_double ==> chord_press_post(pre, post, h.0 as int, h.1 as int, outcome, changes))
        },
    }
}

/// Splits a packed pointer-message parameter into x and y pixel
/// coordinates: the low 16 bits and the next 16 bits.
pub fn decode_pointer(packed: i64) -> (p: (i64, i64))
    ensures
        p.0 == packed & 0xffff,
        p.1 == (packed >> 16) & 0xffff,
        0 <= p.0 < 0x10000,
        0 <= p.1 < 0x10000,
{
    proof {
        assert(packed & 0xffff < 0x10000 && packed & 0xffff >= 0) by (bit_vector);
        assert((packed >> 16) & 0xffff < 0x10000 && (packed >> 16) & 0xffff >= 0) by (bit_vector);
    }
    let x = packed & 0xffff;
    let y = (packed >> 16) & 0xffff;
    (x, y)
}

/// A host input event, decoupled from any native message vocabulary: the
/// host translates whatever its message loop delivers into these.
pub enum GameEvent {
    PointerMoved { x: i64, y: i64 },
    PointerPressed { is_right: bool, is_double: bool },
    Resized { width: usize, height: usize },
}

/// The controller facade.
pub struct Minesweeper {
    board: Board,
    layout: GridLayout,
    pointer: Option<(i64, i64)>,
    hover: Option<(usize, usize)>,
}

impl View for Minesweeper {
    type V = GameView;

    closed spec fn view(&self) -> GameView {
        GameView {
            board: self.board@,
            layout: self.layout,
            pointer: self.pointer,
            hover: self.hover,
        }
    }
}

impl Minesweeper {
    /// Builds a fresh game over a new board and an initial container size.
    pub fn new(rows: usize, cols: usize, mine_count: usize, width: usize, height: usize) -> (r:
        Result<Minesweeper, BoardError>)
        ensures
            (r is Ok) <==> (1 <= rows <= crate::board::MAX_DIM && 1 <= cols <= crate::board::MAX_DIM
                && 1 <= mine_count && mine_count < rows * cols && width <= MAX_PIXEL && height
                <= MAX_PIXEL),
            r matches Ok(g) ==> {
                &&& game_wf(g@)
                &&& g@.board.rows == rows
                &&& g@.board.cols == cols
                &&& g@.board.mine_count == mine_count
                &&& g@.board.state == GameState::NotStarted
                &&& !g@.board.placed
                &&& g@.layout.width == width
                &&& g@.layout.height == height
                &&& g@.pointer is None
                &&& g@.hover is None
            },
            r matches Err(e) ==> e == BoardError::InvalidConfiguration,
    {
        if width > MAX_PIXEL || height > MAX_PIXEL {
            return Err(BoardError::InvalidConfiguration);
        }
        let board = match Board::new(rows, cols, mine_count) {
            Ok(b) => b,
            Err(e) => {
                return Err(e);
            },
        };
        let layout = GridLayout::compute(width, height, rows, cols);
        Ok(Minesweeper { board, layout, pointer: None, hover: None })
    }

    /// Builds a game around an existing board (for example one with an
    /// explicit mine layout).
    pub fn with_board(board: Board, width: usize, height: usize) -> (r: Result<
        Minesweeper,
        BoardError,
    >)
        requires
            board_wf(board@),
        ensures
            (r is Ok) <==> (width <= MAX_PIXEL && height <= MAX_PIXEL),
            r matches Ok(g) ==> {
                &&& game_wf(g@)
                &&& g@.board == board@
                &&& g@.layout.width == width
                &&& g@.layout.height == height
                &&& g@.pointer is None
                &&& g@.hover is None
            },
            r matches Err(e) ==> e == BoardError::InvalidConfiguration,
    {
        if width > MAX_PIXEL || height > MAX_PIXEL {
            return Err(BoardError::InvalidConfiguration);
        }
        let rows = board.rows();
        let cols = board.cols();
        let layout = GridLayout::compute(width, height, rows, cols);
        Ok(Minesweeper { board, layout, pointer: None, hover: None })
    }

    pub fn game_state(&self) -> (r: GameState)
        ensures
            r == self@.board.state,
    {
        self.board.game_state()
    }

    pub fn hover(&self) -> (r: Option<(usize, usize)>)
        ensures
            r == self@.hover,
    {
        self.hover
    }

    pub fn board(&self) -> (r: &Board)
        ensures
            r@ == self@.board,
    {
        &self.board
    }

    /// Updates the hover highlight from a pointer position. The board is
    /// untouched.
    pub fn on_pointer_moved(&mut self, x: i64, y: i64)
        requires
            game_wf(old(self)@),
        ensures
            game_wf(final(self)@),
            final(self)@.board == old(self)@.board,
            final(self)@.layout == old(self)@.layout,
            final(self)@.pointer == Option::Some((x, y)),
    {
        self.pointer = Some((x, y));
        self.hover = self.layout.hit_test(x, y);
    }

    /// Recomputes the layout for a new container size and refreshes the
    /// hover from the stored pointer, so a stale hover never points at an
    /// outdated screen position. The board is untouched.
    pub fn on_parent_size_changed(&mut self, width: usize, height: usize) -> (r: Result<
        (),
        BoardError,
    >)
        requires
            game_wf(old(self)@),
        ensures
            game_wf(final(self)@),
            final(self)@.board == old(self)@.board,
            (r is Err) <==> (width > MAX_PIXEL || height > MAX_PIXEL),
            r matches Err(e) ==> e == BoardError::InvalidConfiguration && final(self)@ == old(
                self,
            )@,
            r is Ok ==> {
                &&& layout_wf(final(self)@.layout)
                &&& final(self)@.layout.width == width
                &&& final(self)@.layout.height == height
                &&& final(self)@.layout.rows == old(self)@.board.rows
                &&& final(self)@.layout.cols == old(self)@.board.cols
                &&& final(self)@.pointer == old(self)@.pointer
            },
    {
        if width > MAX_PIXEL || height > MAX_PIXEL {
            return Err(BoardError::InvalidConfiguration);
        }
        let rows = self.board.rows();
        let cols = self.board.cols();
        self.layout = GridLayout::compute(width, height, rows, cols);
        self.hover = match self.pointer {
            Some(p) => self.layout.hit_test(p.0, p.1),
            None => None,
        };
        Ok(())
    }

    /// Commits the action of a pointer press on the hovered cell: a left
    /// press reveals it, a right press toggles its flag, a double press
    /// chords. With no cell hovered nothing happens. Returns what happened
    /// and the coordinates whose visibility changed, for the renderer.
    pub fn on_pointer_pressed(&mut self, is_right: bool, is_double: bool) -> (r: (
        RevealOutcome,
        Vec<(usize, usize)>,
    ))
        requires
            game_wf(old(self)@),
        ensures
            game_wf(final(self)@),
            final(self)@.layout == old(self)@.layout,
            final(self)@.pointer == old(self)@.pointer,
            final(self)@.hover == old(self)@.hover,
            same_config(old(self)@.board, final(self)@.board),
            press_post(
                old(self)@.hover,
                old(self)@.board,
                final(self)@.board,
                is_right,
                is_double,
                r.0,
                r.1@,
            ),
    {
        let (hr, hc) = match self.hover {
            Some(h) => h,
            None => {
                return (RevealOutcome::NoChange, Vec::new());
            },
        };
        if is_double {
            // Chord: reveal every unflagged in-range neighbor of the hovered
            // cell; flagged or revealed neighbors are no-ops by themselves.
            let ghost pre = self.board@;
            let rows = self.board.rows();
            let cols = self.board.cols();
            let mut changes: Vec<(usize, usize)> = Vec::new();
            let mut exploded = false;
            let mut any_change = false;
            let ghost mut wit: (int, int) = (0int, 0int);
            proof {
                lemma_changes_refl(pre, changes@);
            }
            let mut dn: usize = 0;
            while dn < 8
                invariant
                    dn <= 8,
                    board_wf(self@.board),
                    rows == pre.rows,
                    cols == pre.cols,
                    hr < rows,
                    hc < cols,
                    same_config(pre, self@.board),
                    reveal_monotonic(pre, self@.board),
                    pre.placed ==> self@.board.placed,
                    pre.placed ==> mines_unchanged(pre, self@.board),
                    exploded ==> self@.board.state == GameState::Lost,
                    exploded ==> any_change,
                    changes_coords_exact(pre, self@.board, changes@),
                    !any_change ==> self@.board == pre,
                    any_change ==> in_range(pre, wit.0, wit.1) && cell_of(
                        pre,
                        wit.0,
                        wit.1,
                    ).visibility != Visibility::Revealed && cell_of(
                        self@.board,
                        wit.0,
                        wit.1,
                    ).visibility == Visibility::Revealed,
                    (pre.state == GameState::NotStarted || pre.state == GameState::InProgress)
                        && !exploded ==> self@.board.state != GameState::Lost,
                    (pre.state == GameState::NotStarted || pre.state == GameState::InProgress)
                        && !exploded ==> forall|d: int| 0 <= d < dn ==> {
                        let r2 = hr + (#[trigger] noff(d)).0;
                        let c2 = hc + noff(d).1;
                        (in_range(pre, r2, c2) && cell_of(pre, r2, c2).visibility
                            == Visibility::Hidden && !cell_of(self@.board, r2, c2).has_mine)
                            ==> cell_of(self@.board, r2, c2).visibility == Visibility::Revealed
                    },
                    self@.layout == old(self)@.layout,
                    self@.pointer == old(self)@.pointer,
                    self@.hover == old(self)@.hover,
                    pre == old(self)@.board,
                    game_wf(old(self)@),
                decreases 8 - dn,
            {
                let shift: (usize, usize) = if dn == 0 {
                    (0, 0)
                } else if dn == 1 {
                    (0, 1)
                } else if dn == 2 {
                    (0, 2)
                } else if dn == 3 {
                    (1, 0)
                } else if dn == 4 {
                    (1, 2)
                } else if dn == 5 {
                    (2, 0)
                } else if dn == 6 {
                    (2, 1)
                } else {
                    (2, 2)
                };
                proof {
                    assert(noff(dn as int) == (shift.0 as int - 1, shift.1 as int - 1));
                }
                let nr1 = hr + shift.0;
                let nc1 = hc + shift.1;
                if nr1 >= 1 && nr1 <= rows && nc1 >= 1 && nc1 <= cols {
                    let nr = nr1 - 1;
                    let nc = nc1 - 1;
                    let ghost mid = self.board@;
                    let ghost changes0 = changes@;
                    let ghost any_change0 = any_change;
                    proof {
                        assert(in_range(mid, nr as int, nc as int));
                    }
                    let mut o: RevealOutcome = RevealOutcome::NoChange;
                    let ghost mut chv: Seq<(usize, usize)> = Seq::empty();
                    match self.board.reveal_cell(nr, nc) {
                        Ok(u) => {
                            let (o2, mut ch) = u;
                            proof {
                                chv = ch@;
                            }
                            changes.append(&mut ch);
                            o = o2;
                        },
                        Err(_) => {},
                    }
                    if o == RevealOutcome::Exploded {
                        exploded = true;
                    }
                    if o != RevealOutcome::NoChange {
                        any_change = true;
                        proof {
                            wit = (nr as int, nc as int);
                        }
                    }
                    proof {
                        let cur = self@.board;
                        crate::board::lemma_idx_bounds(
                            rows as int,
                            cols as int,
                            nr as int,
                            nc as int,
                        );
                        // This step's change list is exact, blocked or not.
                        if reveal_blocked(mid, nr as int, nc as int) {
                            assert(cur == mid && chv.len() == 0);
                            lemma_changes_refl(mid, chv);
                        }
                        assert(changes_coords_exact(mid, cur, chv));
                        assert(reveal_monotonic(mid, cur));
                        assert(changes@ =~= changes0 + chv);
                        lemma_changes_compose(pre, mid, cur, changes0, chv);
                        // Monotonicity and the mine layout compose.
                        assert forall|i: int| 0 <= i < pre.cells.len() implies {
                            &&& ((#[trigger] pre.cells[i]).visibility == Visibility::Revealed
                                ==> cur.cells[i].visibility == Visibility::Revealed)
                            &&& (cur.cells[i].visibility != pre.cells[i].visibility
                                ==> cur.cells[i].visibility == Visibility::Revealed)
                        } by {
                            assert(mid.cells[i].visibility == pre.cells[i].visibility
                                || mid.cells[i].visibility == Visibility::Revealed);
                        }
                        if pre.placed {
                            assert(mid.placed);
                            assert forall|i: int| 0 <= i < pre.cells.len() implies (
                            #[trigger] cur.cells[i]).has_mine == pre.cells[i].has_mine
                                && cur.cells[i].adjacent == pre.cells[i].adjacent by {
                                assert(mid.cells[i].has_mine == pre.cells[i].has_mine
                                    && mid.cells[i].adjacent == pre.cells[i].adjacent);
                            }
                        }
                        // The change witness: a fresh one on a real reveal,
                        // the old one is kept revealed by monotonicity.
                        if o != RevealOutcome::NoChange {
                            assert(cell_of(mid, nr as int, nc as int).visibility
                                == Visibility::Hidden);
                            assert(cell_of(pre, nr as int, nc as int).visibility
                                != Visibility::Revealed);
                            assert(cell_of(cur, nr as int, nc as int).visibility
                                == Visibility::Revealed);
                        } else if any_change0 {
                            crate::board::lemma_idx_bounds(rows as int, cols as int, wit.0, wit.1);
                            assert(cell_of(cur, wit.0, wit.1).visibility == Visibility::Revealed);
                        }
                        // The visited neighbors stay opened.
                        if (pre.state == GameState::NotStarted || pre.state
                            == GameState::InProgress) && !exploded {
                            if !mid.placed {
                                crate::board::lemma_count_mines_zero(mid.cells);
                            }
                            assert forall|d: int| 0 <= d < dn + 1 implies {
                                let r2 = hr + (#[trigger] noff(d)).0;
                                let c2 = hc + noff(d).1;
                                (in_range(pre, r2, c2) && cell_of(pre, r2, c2).visibility
                                    == Visibility::Hidden && !cell_of(cur, r2, c2).has_mine)
                                    ==> cell_of(cur, r2, c2).visibility == Visibility::Revealed
                            } by {
                                let r2 = hr + noff(d).0;
                                let c2 = hc + noff(d).1;
                                if in_range(pre, r2, c2) && cell_of(pre, r2, c2).visibility
                                    == Visibility::Hidden && !cell_of(cur, r2, c2).has_mine {
                                    crate::board::lemma_idx_bounds(rows as int, cols as int, r2, c2);
                                    if d < dn {
                                        assert(!cell_of(mid, r2, c2).has_mine);
                                        assert(cell_of(mid, r2, c2).visibility
                                            == Visibility::Revealed);
                                    } else {
                                        assert(r2 == nr as int && c2 == nc as int);
                                        if reveal_blocked(mid, r2, c2) {
                                            assert(cur == mid);
                                            if mid.state == GameState::Won {
                                                assert(cell_of(mid, r2, c2).visibility
                                                    == Visibility::Revealed);
                                            } else {
                                                assert(mid.state == GameState::NotStarted
                                                    || mid.state == GameState::InProgress);
                                                assert(cell_of(mid, r2, c2).visibility
                                                    != Visibility::Hidden);
                                                assert(cell_of(mid, r2, c2).visibility
                                                    == Visibility::Revealed);
                                            }
                                        } else {
                                            assert(cell_of(cur, r2, c2).visibility
                                                == Visibility::Revealed);
                                        }
                                    }
                                }
                            }
                        }
                    }
                } else {
                    proof {
                        assert({
                            let r2 = hr + noff(dn as int).0;
                            let c2 = hc + noff(dn as int).1;
                            !in_range(pre, r2, c2)
                        });
                    }
                }
                dn = dn + 1;
            }
            let outcome = if exploded {
                RevealOutcome::Exploded
            } else if any_change {
                RevealOutcome::Changed
            } else {
                RevealOutcome::NoChange
            };
            proof {
                let post = self@.board;
                if any_change {
                    crate::board::lemma_idx_bounds(rows as int, cols as int, wit.0, wit.1);
                    if post == pre {
                        assert(cell_of(post, wit.0, wit.1) == cell_of(pre, wit.0, wit.1));
                        assert(false);
                    }
                }
                // Every adjacent position was visited under one of the 8
                // offsets.
                if (pre.state == GameState::NotStarted || pre.state == GameState::InProgress)
                    && !exploded {
                    assert forall|r2: int, c2: int|
                        in_range(pre, r2, c2) && #[trigger] is_adjacent(
                            hr as int,
                            hc as int,
                            r2,
                            c2,
                        ) && cell_of(pre, r2, c2).visibility == Visibility::Hidden && !cell_of(
                            post,
                            r2,
                            c2,
                        ).has_mine implies cell_of(post, r2, c2).visibility
                        == Visibility::Revealed by {
                        let dr = r2 - hr as int;
                        let dc = c2 - hc as int;
                        let d: int = if dr == -1 && dc == -1 {
                            0
                        } else if dr == -1 && dc == 0 {
                            1
                        } else if dr == -1 && dc == 1 {
                            2
                        } else if dr == 0 && dc == -1 {
                            3
                        } else if dr == 0 && dc == 1 {
                            4
                        } else if dr == 1 && dc == -1 {
                            5
                        } else if dr == 1 && dc == 0 {
                            6
                        } else {
                            7
                        };
                        assert(noff(d) == (dr, dc));
                        assert(hr + noff(d).0 == r2 && hc + noff(d).1 == c2);
                    }
                }
            }
            return (outcome, changes);
        }
        if is_right {
            let mut changes: Vec<(usize, usize)> = Vec::new();
            let outcome = match self.board.toggle_flag(hr, hc) {
                Ok(o) => o,
                Err(_) => RevealOutcome::NoChange,
            };
            if outcome == RevealOutcome::Changed {
                changes.push((hr, hc));
            }
            return (outcome, changes);
        }
        match self.board.reveal_cell(hr, hc) {
            Ok(u) => u,
            Err(_) => (RevealOutcome::NoChange, Vec::new()),
        }
    }

    /// Dispatches one host event to the matching operation. Only a press
    /// can change the board; a move or resize only retargets the hover.
    /// An oversized resize is rejected with `InvalidConfiguration` and
    /// changes nothing.
    pub fn on_event(&mut self, event: GameEvent) -> (r: Result<
        (RevealOutcome, Vec<(usize, usize)>),
        BoardError,
    >)
        requires
            game_wf(old(self)@),
        ensures
            game_wf(final(self)@),
            same_config(old(self)@.board, final(self)@.board),
            !(event matches GameEvent::PointerPressed { .. }) ==> final(self)@.board == old(
                self,
            )@.board,
            (r is Err) <==> (event matches GameEvent::Resized { width, height } && (width
                > MAX_PIXEL || height > MAX_PIXEL)),
            r matches Err(e) ==> e == BoardError::InvalidConfiguration && final(self)@ == old(
                self,
            )@,
            match event {
                GameEvent::PointerMoved { x, y } => final(self)@.pointer == Option::Some((x, y))
                    && final(self)@.layout == old(self)@.layout,
                GameEvent::PointerPressed { is_right, is_double } => {
                    &&& final(self)@.layout == old(self)@.layout
                    &&& final(self)@.pointer == old(self)@.pointer
                    &&& final(self)@.hover == old(self)@.hover
                    &&& (r matches Ok(u) && press_post(
                        old(self)@.hover,
                        old(self)@.board,
                        final(self)@.board,
                        is_right,
                        is_double,
                        u.0,
                        u.1@,
                    ))
                },
                GameEvent::Resized { width, height } => r is Ok ==> {
                    &&& final(self)@.layout.width == width
                    &&& final(self)@.layout.height == height
                    &&& final(self)@.layout.rows == old(self)@.board.rows
                    &&& final(self)@.layout.cols == old(self)@.board.cols
                    &&& final(self)@.pointer == old(self)@.pointer
                },
            },
    {
        match event {
            GameEvent::PointerMoved { x, y } => {
                self.on_pointer_moved(x, y);
                Ok((RevealOutcome::NoChange, Vec::new()))
            },
            GameEvent::PointerPressed { is_right, is_double } => {
                Ok(self.on_pointer_pressed(is_right, is_double))
            },
            GameEvent::Resized { width, height } => {
                match self.on_parent_size_changed(width, height) {
                    Ok(()) => Ok((RevealOutcome::NoChange, Vec::new())),
                    Err(e) => Err(e),
                }
            },
        }
    }
}

} // verus!
