//! The native game server: deterministic mine placement from a 32-bit seed,
//! turn application (clear, flag, unflag), the autoclear flood fill, and
//! win/lose detection. The ground truth of a game is a pure function of its
//! specification, which is what makes whole batches reproducible.

use vstd::prelude::*;

use crate::cell::copy_vec;
use crate::coords::{
    coords_of, dims_positive, in_bounds, index_of, lemma_coords_of_in_bounds, lemma_round_trip,
    volume, Coords,
};
use crate::grid::{surr_indices, surr_spec, checked_volume};
use crate::rng::{mt_place_draw, PlaceStream};

verus! {

/// A game's full specification; it determines the ground truth exactly.
#[derive(Debug)]
pub struct GameSpec {
    pub dims: Vec<usize>,
    pub mines: usize,
    pub seed: u32,
    pub autoclear: bool,
}

/// The lifecycle of a game: `Ongoing` until it is decided, then terminal.
#[derive(Clone, Copy, Debug, PartialEq, Eq, Structural)]
pub enum GameState {
    Ongoing,
    Win,
    Lose,
}

/// What has happened to a cell on the server's board.
#[derive(Clone, Copy, Debug, PartialEq, Eq, Structural)]
pub enum CellAction {
    NoAction,
    Flagged,
    Cleared,
}

/// The errors a game can surface.
#[derive(Clone, Copy, Debug, PartialEq, Eq, Structural)]
pub enum GameError {
    /// Rejected at construction: an axis shorter than two cells, no axis at
    /// all, a board too large for the placement generator, or at least as
    /// many mines as cells.
    InvalidSpec,
    /// A turn was submitted to a game that is already decided.
    GameFinished,
}

impl GameError {
    /// A human-readable description of the error.
    pub fn message(&self) -> &'static str {
        match self {
            GameError::InvalidSpec => "invalid game params",
            GameError::GameFinished => "Game already finished",
        }
    }
}

/// Ground truth for one cell: whether it hides a mine, what has been done to
/// it, its neighbor indices, and its true surrounding-mine count.
#[derive(Debug)]
pub struct Cell {
    pub mine: bool,
    pub action: CellAction,
    pub surr_indices: Vec<usize>,
    pub surr_mine_count: usize,
}

/// What the server reveals about one cleared cell: the only information ever
/// exposed about ground truth.
#[derive(Debug)]
pub struct CellInfo {
    pub coords: Coords,
    pub mine: bool,
    pub surrounding: usize,
}

/// The record of one turn, kept when the game stores its history.
#[derive(Debug)]
pub struct TurnInfo {
    pub clear_req: Vec<usize>,
    pub clear_actual: Vec<usize>,
    pub flagged: Vec<usize>,
    pub unflagged: Vec<usize>,
    pub cells_rem: usize,
    pub game_state: GameState,
}

/// How many of the first `n` entries satisfy `p`.
pub open spec fn count_if<T>(s: Seq<T>, p: spec_fn(T) -> bool, n: int) -> int
    decreases n,
{
    if n <= 0 {
        0
    } else {
        count_if(s, p, n - 1) + if p(s[n - 1]) {
            1int
        } else {
            0int
        }
    }
}

/// A count over entries that all fail the predicate is zero.
pub proof fn lemma_count_if_zero<T>(s: Seq<T>, p: spec_fn(T) -> bool, n: int)
    requires
        n <= s.len(),
        forall|j: int| 0 <= j < n ==> !p(s[j]),
    ensures
        count_if(s, p, n) == 0,
    decreases n,
{
    if n > 0 {
        lemma_count_if_zero(s, p, n - 1);
    }
}

/// The count is between zero and `n`.
pub proof fn lemma_count_if_bounds<T>(s: Seq<T>, p: spec_fn(T) -> bool, n: int)
    requires
        n >= 0,
    ensures
        0 <= count_if(s, p, n) <= n,
    decreases n,
{
    if n > 0 {
        lemma_count_if_bounds(s, p, n - 1);
    }
}

/// Updating one entry below `n` changes the count by the difference of the
/// old and new entry's contributions; updating at or above `n` changes
/// nothing.
pub proof fn lemma_count_if_update<T>(s: Seq<T>, p: spec_fn(T) -> bool, n: int, i: int, v: T)
    requires
        0 <= i < s.len(),
        n <= s.len(),
    ensures
        count_if(s.update(i, v), p, n) == count_if(s, p, n) + if i < n {
            (if p(v) {
                1int
            } else {
                0int
            }) - (if p(s[i]) {
                1int
            } else {
                0int
            })
        } else {
            0int
        },
    decreases n,
{
    if n > 0 {
        lemma_count_if_update(s, p, n - 1, i, v);
    }
}

/// A witnessed entry makes the count positive.
pub proof fn lemma_count_if_pos<T>(s: Seq<T>, p: spec_fn(T) -> bool, n: int, k: int)
    requires
        0 <= k < n <= s.len(),
        p(s[k]),
    ensures
        count_if(s, p, n) >= 1,
    decreases n,
{
    lemma_count_if_bounds(s, p, n - 1);
    if k < n - 1 {
        lemma_count_if_pos(s, p, n - 1, k);
    }
}

/// Two sequences that agree on their first `n` entries have the same count.
pub proof fn lemma_count_if_agree<T>(s1: Seq<T>, s2: Seq<T>, p: spec_fn(T) -> bool, n: int)
    requires
        0 <= n <= s1.len(),
        n <= s2.len(),
        forall|j: int| 0 <= j < n ==> s1[j] == s2[j],
    ensures
        count_if(s1, p, n) == count_if(s2, p, n),
    decreases n,
{
    if n > 0 {
        lemma_count_if_agree(s1, s2, p, n - 1);
    }
}

/// A cell that still counts toward `cells_rem`: no mine and not yet cleared.
pub open spec fn is_rem(c: Cell) -> bool {
    !c.mine && c.action != CellAction::Cleared
}

/// `is_rem` as a value, for counting.
pub open spec fn rem_pred() -> spec_fn(Cell) -> bool {
    |c: Cell| is_rem(c)
}

/// A cell not yet cleared, mined or not.
pub open spec fn is_uncleared(c: Cell) -> bool {
    c.action != CellAction::Cleared
}

/// `is_uncleared` as a value, for counting.
pub open spec fn uncleared_pred() -> spec_fn(Cell) -> bool {
    |c: Cell| is_uncleared(c)
}

/// `true` entries of a boolean board, for counting.
pub open spec fn true_pred() -> spec_fn(bool) -> bool {
    |b: bool| b
}

/// One step of the seeded shuffle: move the value at `r` up to `i`, then
/// write whether step `i` contributes a mine at `r`.
pub open spec fn place_step(prev: Seq<bool>, i: int, r: int, is_mine: bool) -> Seq<bool> {
    let moved = if r != i {
        prev.update(i, prev[r])
    } else {
        prev
    };
    moved.update(r, is_mine)
}

/// The board after the first `n` steps of the seeded shuffle: step 0 targets
/// index 0 without drawing, every later step `i` draws uniformly below
/// `i + 1`.
pub open spec fn layout_rec(seed: u32, mines: int, size: int, n: int) -> Seq<bool>
    decreases n,
{
    if n <= 0 {
        Seq::new(size as nat, |j: int| false)
    } else {
        let i = n - 1;
        let r = if i == 0 {
            0int
        } else {
            mt_place_draw(seed, (i - 1) as nat) as int
        };
        place_step(layout_rec(seed, mines, size, i), i, r, i < mines)
    }
}

/// The finished mine layout of a game: one boolean per flat index.
pub open spec fn mine_layout(seed: u32, mines: int, size: int) -> Seq<bool> {
    layout_rec(seed, mines, size, size)
}

/// How many entries of `surr` index a mine in `layout`.
pub open spec fn count_mines_in(layout: Seq<bool>, surr: Seq<usize>) -> int
    decreases surr.len(),
{
    if surr.len() == 0 {
        0
    } else {
        count_mines_in(layout, surr.drop_last()) + if layout[surr.last() as int] {
            1int
        } else {
            0int
        }
    }
}

/// A specification the server accepts: every axis at least two cells, a board
/// that the placement generator can index, and fewer mines than cells.
pub open spec fn valid_spec(dims: Seq<usize>, mines: usize) -> bool {
    &&& dims.len() > 0
    &&& forall|i: int| 0 <= i < dims.len() ==> dims[i] >= 2
    &&& volume(dims) <= 0x7fff_ffff
    &&& (mines as int) < volume(dims)
}

/// Place the mines with the seeded shuffle. The very first step must not
/// draw, to reproduce the reference generator sequence exactly.
fn place_mines(seed: u32, mines: usize, size: usize) -> (r: Vec<bool>)
    requires
        1 <= size <= 0x7fff_ffff,
        mines < size,
    ensures
        r@ == mine_layout(seed, mines as int, size as int),
        r@.len() == size,
        count_if(r@, true_pred(), size as int) == mines,
{
    let mut arr: Vec<bool> = Vec::new();
    let mut k: usize = 0;
    while k < size
        invariant
            k <= size,
            arr@ == Seq::new(k as nat, |j: int| false),
        decreases size - k,
    {
        arr.push(false);
        proof {
            assert(arr@ =~= Seq::new((k + 1) as nat, |j: int| false));
        }
        k = k + 1;
    }
    let mut stream = PlaceStream::new(seed);
    let mut i: usize = 0;
    proof {
        assert(arr@ =~= layout_rec(seed, mines as int, size as int, 0));
        lemma_count_if_zero(arr@, true_pred(), size as int);
    }
    while i < size
        invariant
            1 <= size <= 0x7fff_ffff,
            mines < size,
            i <= size,
            stream.seed() == seed,
            stream.drawn() == if i == 0 {
                0int
            } else {
                i - 1
            },
            arr@.len() == size,
            arr@ == layout_rec(seed, mines as int, size as int, i as int),
            count_if(arr@, true_pred(), size as int) == if (i as int) < (mines as int) {
                i as int
            } else {
                mines as int
            },
            forall|j: int| i <= j < size ==> !arr@[j],
        decreases size - i,
    {
        let ghost pre = arr@;
        let r: usize = if i == 0 {
            0
        } else {
            stream.gen_below(i + 1)
        };
        assert(r <= i);
        if r != i {
            let v = arr[r];
            arr.set(i, v);
        }
        arr.set(r, i < mines);
        proof {
            assert(arr@ =~= place_step(pre, i as int, r as int, (i as int) < (mines as int)));
            assert(arr@ == layout_rec(seed, mines as int, size as int, i + 1));
            let moved = if r != i {
                pre.update(i as int, pre[r as int])
            } else {
                pre
            };
            lemma_count_if_update(pre, true_pred(), size as int, i as int, pre[r as int]);
            lemma_count_if_update(moved, true_pred(), size as int, r as int, (i as int) < (
            mines as int));
            assert(!pre[i as int]);
        }
        i = i + 1;
    }
    arr
}

/// How many entries of `surr` index a mine in `layout`.
fn count_mines_exec(layout: &Vec<bool>, surr: &Vec<usize>) -> (r: usize)
    requires
        forall|k: int| 0 <= k < surr@.len() ==> surr@[k] < layout@.len(),
    ensures
        r == count_mines_in(layout@, surr@),
{
    let mut acc: usize = 0;
    let mut k: usize = 0;
    while k < surr.len()
        invariant
            forall|j: int| 0 <= j < surr@.len() ==> surr@[j] < layout@.len(),
            k <= surr@.len(),
            acc <= k,
            acc == count_mines_in(layout@, surr@.take(k as int)),
        decreases surr@.len() - k,
    {
        proof {
            assert(surr@.take(k + 1).drop_last() =~= surr@.take(k as int));
        }
        if layout[surr[k]] {
            acc = acc + 1;
        }
        k = k + 1;
    }
    proof {
        assert(surr@.take(surr@.len() as int) =~= surr@);
    }
    acc
}

/// The in-process deterministic game server.
pub struct NativeServer {
    pub dims: Vec<usize>,
    pub grid: Vec<Cell>,
    pub mines: usize,
    pub seed: u32,
    pub autoclear: bool,
    pub turns: Option<Vec<TurnInfo>>,
    pub cells_rem: usize,
    pub game_state: GameState,
}

impl NativeServer {
    /// The board volume.
    pub open spec fn size(&self) -> int {
        volume(self.dims@)
    }

    /// The cell at index `i` matches the ground truth determined by the
    /// game's specification: its mine bit comes from the seeded layout, its
    /// neighbor list is exactly the neighbor set of `i`, and its count is the
    /// number of mines among those neighbors.
    pub open spec fn cell_ok(&self, i: int) -> bool {
        let c = self.grid@[i];
        let layout = mine_layout(self.seed, self.mines as int, self.size());
        &&& c.mine == layout[i]
        &&& c.surr_indices@.no_duplicates()
        &&& forall|k: int|
            0 <= k < c.surr_indices@.len() ==> surr_spec(
                coords_of(i, self.dims@),
                self.dims@,
                #[trigger] c.surr_indices@[k] as int,
            )
        &&& forall|j: int|
            surr_spec(coords_of(i, self.dims@), self.dims@, j) ==> c.surr_indices@.contains(
                j as usize,
            )
        &&& c.surr_mine_count == count_mines_in(layout, c.surr_indices@)
    }

    /// The server invariant: a valid specification, a grid of one cell per
    /// flat index, each matching ground truth; `cells_rem` counts exactly the
    /// mine-free cells not yet cleared; a won game has no cell remaining and
    /// an ongoing one has at least one.
    pub open spec fn wf(&self) -> bool {
        &&& valid_spec(self.dims@, self.mines)
        &&& self.grid@.len() == self.size()
        &&& forall|i: int| 0 <= i < self.grid@.len() ==> #[trigger] self.cell_ok(i)
        &&& self.cells_rem == count_if(self.grid@, rem_pred(), self.size())
        &&& (self.game_state == GameState::Win ==> self.cells_rem == 0)
        &&& (self.game_state == GameState::Ongoing ==> self.cells_rem > 0)
    }

    /// Everything that never changes after construction: the specification
    /// and, per cell, everything but the action.
    pub open spec fn same_board(pre: NativeServer, post: NativeServer) -> bool {
        &&& post.dims@ == pre.dims@
        &&& post.mines == pre.mines
        &&& post.seed == pre.seed
        &&& post.autoclear == pre.autoclear
        &&& post.grid@.len() == pre.grid@.len()
        &&& forall|j: int|
            0 <= j < pre.grid@.len() ==> {
                &&& (#[trigger] post.grid@[j]).mine == pre.grid@[j].mine
                &&& post.grid@[j].surr_indices@ == pre.grid@[j].surr_indices@
                &&& post.grid@[j].surr_mine_count == pre.grid@[j].surr_mine_count
            }
    }

    /// Build a game server from its specification, rejecting an invalid one.
    /// The ground truth of the result is the pure function of the
    /// specification stated by `wf`: two servers built from equal
    /// specifications have identical mine layouts and surrounding counts.
    pub fn new(spec: GameSpec, store_turns: bool) -> (r: Result<NativeServer, GameError>)
        ensures
            match r {
                Ok(s) => {
                    &&& valid_spec(spec.dims@, spec.mines)
                    &&& s.wf()
                    &&& s.dims@ == spec.dims@
                    &&& s.mines == spec.mines
                    &&& s.seed == spec.seed
                    &&& s.autoclear == spec.autoclear
                    &&& s.game_state == GameState::Ongoing
                    &&& s.cells_rem == volume(spec.dims@) - spec.mines
                    &&& (s.turns is Some <==> store_turns)
                    &&& forall|i: int|
                        0 <= i < s.grid@.len() ==> (#[trigger] s.grid@[i]).action
                            == CellAction::NoAction
                },
                Err(e) => e == GameError::InvalidSpec && !valid_spec(spec.dims@, spec.mines),
            },
    {
        let GameSpec { dims, mines, seed, autoclear } = spec;
        if dims.len() == 0 {
            return Err(GameError::InvalidSpec);
        }
        if !dims_large_enough(&dims) {
            return Err(GameError::InvalidSpec);
        }
        let size = match checked_volume(&dims) {
            Some(v) => v,
            None => {
                return Err(GameError::InvalidSpec);
            },
        };
        if size > 0x7fff_ffff {
            return Err(GameError::InvalidSpec);
        }
        if mines >= size {
            return Err(GameError::InvalidSpec);
        }
        let layout = place_mines(seed, mines, size);
        let ghost lay = layout@;
        let mut grid: Vec<Cell> = Vec::new();
        let mut i: usize = 0;
        while i < size
            invariant
                dims_positive(dims@),
                forall|d: int| 0 <= d < dims@.len() ==> dims@[d] >= 2,
                size == volume(dims@),
                size <= 0x7fff_ffff,
                mines < size,
                layout@ == lay,
                lay == mine_layout(seed, mines as int, size as int),
                lay.len() == size,
                count_if(lay, true_pred(), size as int) == mines,
                i <= size,
                grid@.len() == i,
                forall|j: int|
                    0 <= j < i ==> {
                        let c = #[trigger] grid@[j];
                        &&& c.mine == lay[j]
                        &&& c.action == CellAction::NoAction
                        &&& c.surr_indices@.no_duplicates()
                        &&& forall|k2: int|
                            0 <= k2 < c.surr_indices@.len() ==> surr_spec(
                                coords_of(j, dims@),
                                dims@,
                                #[trigger] c.surr_indices@[k2] as int,
                            )
                        &&& forall|j2: int|
                            surr_spec(coords_of(j, dims@), dims@, j2) ==> c.surr_indices@.contains(
                                j2 as usize,
                            )
                        &&& c.surr_mine_count == count_mines_in(lay, c.surr_indices@)
                    },
                count_if(grid@, rem_pred(), i as int) == i - count_if(lay, true_pred(), i as int),
            decreases size - i,
        {
            proof {
                lemma_coords_of_in_bounds(i as int, dims@);
            }
            let c = Coords::from_index(i, &dims);
            let surr = surr_indices(&c, &dims);
            proof {
                assert(forall|k2: int|
                    0 <= k2 < surr@.len() ==> #[trigger] surr@[k2] < volume(dims@));
            }
            let cnt = count_mines_exec(&layout, &surr);
            let mine = layout[i];
            let ghost pre_grid = grid@;
            grid.push(Cell { mine, action: CellAction::NoAction, surr_indices: surr, surr_mine_count: cnt });
            proof {
                lemma_count_if_agree(pre_grid, grid@, rem_pred(), i as int);
                assert(count_if(grid@, rem_pred(), i + 1) == count_if(grid@, rem_pred(), i as int) + if is_rem(
                    grid@[i as int],
                ) {
                    1int
                } else {
                    0int
                });
            }
            i = i + 1;
        }
        let cells_rem = size - mines;
        let turns = if store_turns {
            let first = TurnInfo {
                clear_req: Vec::new(),
                clear_actual: Vec::new(),
                flagged: Vec::new(),
                unflagged: Vec::new(),
                cells_rem,
                game_state: GameState::Ongoing,
            };
            let mut ts: Vec<TurnInfo> = Vec::new();
            ts.push(first);
            Some(ts)
        } else {
            None
        };
        let s = NativeServer {
            dims,
            grid,
            mines,
            seed,
            autoclear,
            turns,
            cells_rem,
            game_state: GameState::Ongoing,
        };
        proof {
            assert(s.wf());
        }
        Ok(s)
    }
}

/// Whether every axis has at least two cells, as neighbor computation needs.
fn dims_large_enough(dims: &Vec<usize>) -> (r: bool)
    ensures
        r == forall|i: int| 0 <= i < dims@.len() ==> #[trigger] dims@[i] >= 2,
{
    let mut k: usize = 0;
    while k < dims.len()
        invariant
            k <= dims@.len(),
            forall|i: int| 0 <= i < k ==> #[trigger] dims@[i] >= 2,
        decreases dims@.len() - k,
    {
        if dims[k] < 2 {
            return false;
        }
        k = k + 1;
    }
    true
}

/// Set the action of one cell in place, leaving everything else as it was.
fn set_cell_action(grid: &mut Vec<Cell>, i: usize, a: CellAction)
    requires
        i < old(grid)@.len(),
    ensures
        final (grid)@.len() == old(grid)@.len(),
        final (grid)@ == old(grid)@.update(
            i as int,
            Cell {
                mine: old(grid)@[i as int].mine,
                action: a,
                surr_indices: old(grid)@[i as int].surr_indices,
                surr_mine_count: old(grid)@[i as int].surr_mine_count,
            },
        ),
        final (grid)@[i as int].action == a,
        final (grid)@[i as int].mine == old(grid)@[i as int].mine,
        final (grid)@[i as int].surr_indices@ == old(grid)@[i as int].surr_indices@,
        final (grid)@[i as int].surr_mine_count == old(grid)@[i as int].surr_mine_count,
        forall|j: int| 0 <= j < old(grid)@.len() && j != i ==> final (grid)@[j] == old(grid)@[j],
{
    grid[i].action = a;
    proof {
        assert(final (grid)@ =~= old(grid)@.update(
            i as int,
            Cell {
                mine: old(grid)@[i as int].mine,
                action: a,
                surr_indices: old(grid)@[i as int].surr_indices,
                surr_mine_count: old(grid)@[i as int].surr_mine_count,
            },
        ));
    }
}

/// Every neighbor of a newly revealed, mine-free, zero-count cell is either
/// already cleared on `grid` or still pending on `stack`.
pub open spec fn flood_obligation(
    g0: Seq<Cell>,
    grid: Seq<Cell>,
    newly: Seq<usize>,
    stack: Seq<usize>,
) -> bool {
    forall|k: int, m: int|
        0 <= k < newly.len() && !g0[newly[k] as int].mine && g0[newly[k] as int].surr_mine_count
            == 0 && 0 <= m < g0[newly[k] as int].surr_indices@.len() ==> grid[(
        #[trigger] g0[newly[k] as int].surr_indices@[m]) as int].action == CellAction::Cleared
            || stack.contains(g0[newly[k] as int].surr_indices@[m])
}

/// The flood is sound: every revealed cell was requested, or neighbors a
/// revealed mine-free cell with no surrounding mines (possible only with
/// autoclear on). Kept opaque: callers carry it as one fact and reveal it
/// where they need its body.
#[verifier::opaque]
pub open spec fn flood_sound(
    g0: Seq<Cell>,
    req: Seq<usize>,
    newly: Seq<usize>,
    autoclear: bool,
) -> bool {
    forall|k: int|
        0 <= k < newly.len() ==> req.contains(#[trigger] newly[k]) || (autoclear && exists|w: int|
            0 <= w < newly.len() && !g0[#[trigger] newly[w] as int].mine && g0[newly[w] as int].surr_mine_count
                == 0 && g0[newly[w] as int].surr_indices@.contains(newly[k]))
}

/// Some newly cleared cell was a mine.
pub open spec fn mine_hit(pre_grid: Seq<Cell>, newly: Seq<usize>) -> bool {
    exists|k: int| 0 <= k < newly.len() && pre_grid[newly[k] as int].mine
}

/// The number of mine-free cells in `newly`, judged against `pre_grid`.
pub open spec fn cleared_free_count(pre_grid: Seq<Cell>, newly: Seq<usize>) -> int {
    newly.filter(|x: usize| !pre_grid[x as int].mine).len() as int
}

impl NativeServer {
    /// Reveal the requested cells, depth-first, skipping any cell already
    /// acted on; revealing a mine loses the game but does not stop the rest
    /// of the requests; with autoclear, revealing a mine-free cell with no
    /// surrounding mines enqueues all of its neighbors. Returns exactly the
    /// cells revealed, in processing order.
    #[verifier::rlimit(100)]
    fn clear_cells(&mut self, to_clear: Vec<usize>) -> (newly: Vec<usize>)
        requires
            old(self).wf(),
            old(self).game_state == GameState::Ongoing,
            forall|k: int| 0 <= k < to_clear@.len() ==> to_clear@[k] < old(self).size(),
        ensures
            final (self).wf(),
            NativeServer::same_board(*old(self), *final (self)),
            final (self).turns == old(self).turns,
            // exactly the newly revealed cells, each previously untouched by a clear
            newly@.no_duplicates(),
            forall|k: int|
                0 <= k < newly@.len() ==> newly@[k] < old(self).size() && old(self).grid@[#[trigger] newly@[k] as int].action
                    != CellAction::Cleared,
            forall|j: int|
                0 <= j < old(self).grid@.len() ==> (#[trigger] final (self).grid@[j]).action == (
                if newly@.contains(j as usize) {
                    CellAction::Cleared
                } else {
                    old(self).grid@[j].action
                }),
            // every requested cell ends cleared
            forall|k: int|
                0 <= k < to_clear@.len() ==> final (self).grid@[#[trigger] to_clear@[k] as int].action
                    == CellAction::Cleared,
            // bookkeeping
            final (self).cells_rem == old(self).cells_rem - cleared_free_count(
                old(self).grid@,
                newly@,
            ),
            !mine_hit(old(self).grid@, newly@) && final (self).cells_rem > 0 ==> final (self).game_state == GameState::Ongoing,
            mine_hit(old(self).grid@, newly@) ==> final (self).game_state == GameState::Lose,
            !mine_hit(old(self).grid@, newly@) && final (self).cells_rem == 0 ==> final (self).game_state == GameState::Win,
            // with autoclear on, the flood is complete: every neighbor of a
            // newly revealed zero-count cell ends cleared
            old(self).autoclear ==> flood_obligation(
                old(self).grid@,
                final (self).grid@,
                newly@,
                Seq::empty(),
            ),
            // and the flood is sound: every revealed cell was requested, or
            // neighbors a revealed mine-free cell with no surrounding mines
            flood_sound(old(self).grid@, to_clear@, newly@, old(self).autoclear),
    {
        let ghost g0 = old(self).grid@;
        let ghost req0 = to_clear@;
        let mut stack = to_clear;
        let mut newly: Vec<usize> = Vec::new();
        let ghost freep = |x: usize| !g0[x as int].mine;
        // justification tags: a negative tag marks a requested cell, a
        // nonnegative one names the revealed zero-count cell it neighbors
        let ghost mut why_stack: Seq<int> = Seq::new(req0.len(), |k: int| -1);
        let ghost mut why_new: Seq<int> = Seq::empty();
        proof {
            assert(newly@.filter(freep) =~= Seq::<usize>::empty());
            lemma_count_if_bounds(self.grid@, uncleared_pred(), self.size());
            assert forall|k: int| 0 <= k < stack@.len() && why_stack[k] == -1 implies
                req0.contains(#[trigger] stack@[k]) by {
                assert(req0[k] == stack@[k]);
            }
        }
        while stack.len() > 0
            invariant
                self.wf(),
                NativeServer::same_board(*old(self), *self),
                self.turns == old(self).turns,
                self.grid@.len() == g0.len(),
                old(self).wf(),
                g0 == old(self).grid@,
                req0 == to_clear@,
                forall|k: int| 0 <= k < req0.len() ==> #[trigger] req0[k] < self.size(),
                freep == (|x: usize| !g0[x as int].mine),
                forall|k: int| 0 <= k < stack@.len() ==> stack@[k] < self.size(),
                newly@.no_duplicates(),
                forall|k: int|
                    0 <= k < newly@.len() ==> newly@[k] < self.size() && g0[#[trigger] newly@[k] as int].action
                        != CellAction::Cleared,
                forall|j: int|
                    0 <= j < g0.len() ==> (#[trigger] self.grid@[j]).action == (
                    if newly@.contains(j as usize) {
                        CellAction::Cleared
                    } else {
                        g0[j].action
                    }),
                forall|k: int|
                    0 <= k < req0.len() ==> self.grid@[#[trigger] req0[k] as int].action
                        == CellAction::Cleared || stack@.contains(req0[k]),
                self.cells_rem == old(self).cells_rem - newly@.filter(freep).len(),
                old(self).game_state == GameState::Ongoing,
                !mine_hit(g0, newly@) && self.cells_rem > 0 ==> self.game_state
                    == GameState::Ongoing,
                mine_hit(g0, newly@) ==> self.game_state == GameState::Lose,
                !mine_hit(g0, newly@) && self.cells_rem == 0 ==> self.game_state == GameState::Win,
                self.autoclear ==> flood_obligation(g0, self.grid@, newly@, stack@),
                why_stack.len() == stack@.len(),
                why_new.len() == newly@.len(),
                forall|k: int|
                    0 <= k < stack@.len() && why_stack[k] < 0 ==> req0.contains(
                        #[trigger] stack@[k],
                    ),
                forall|k: int|
                    0 <= k < stack@.len() && why_stack[k] >= 0 ==> self.autoclear && 0
                        <= why_stack[k] < newly@.len() && !g0[newly@[why_stack[k]] as int].mine
                        && g0[newly@[why_stack[k]] as int].surr_mine_count == 0 && g0[newly@[#[trigger] why_stack[k]] as int].surr_indices@.contains(
                        stack@[k],
                    ),
                forall|k: int|
                    0 <= k < newly@.len() && why_new[k] < 0 ==> req0.contains(
                        #[trigger] newly@[k],
                    ),
                forall|k: int|
                    0 <= k < newly@.len() && why_new[k] >= 0 ==> self.autoclear && 0 <= why_new[k]
                        < newly@.len() && !g0[newly@[why_new[k]] as int].mine && g0[newly@[why_new[k]] as int].surr_mine_count
                        == 0 && g0[newly@[#[trigger] why_new[k]] as int].surr_indices@.contains(
                        newly@[k],
                    ),
            decreases count_if(self.grid@, uncleared_pred(), self.size()), stack@.len(),
        {
            let ghost stack_pre = stack@;
            let ghost grid_pre = self.grid@;
            let ghost newly_pre = newly@;
            let index = match stack.pop() {
                Some(i) => i,
                None => {
                    return newly;  // unreachable: the stack is nonempty
                },
            };
            let ghost why = why_stack[why_stack.len() - 1];
            proof {
                why_stack = why_stack.drop_last();
                assert(stack_pre[stack_pre.len() - 1] == index);
                assert(forall|k: int|
                    0 <= k < stack@.len() ==> stack@[k] == #[trigger] stack_pre[k]);
                lemma_count_if_bounds(self.grid@, uncleared_pred(), self.size());
            }
            let action = self.grid[index].action;
            if action == CellAction::Cleared {
                // already acted on: skip (idempotent)
                proof {
                    assert forall|k: int|
                        0 <= k < req0.len() implies self.grid@[#[trigger] req0[k] as int].action
                        == CellAction::Cleared || stack@.contains(req0[k]) by {
                        if self.grid@[req0[k] as int].action != CellAction::Cleared {
                            let j = choose|j: int|
                                0 <= j < stack_pre.len() && stack_pre[j] == req0[k];
                            assert(j < stack@.len());
                            assert(stack@[j] == req0[k]);
                        }
                    }
                    if self.autoclear {
                        assert forall|k: int, m: int|
                            0 <= k < newly@.len() && !g0[newly@[k] as int].mine && g0[newly@[k] as int].surr_mine_count
                                == 0 && 0 <= m < g0[newly@[k] as int].surr_indices@.len() implies self.grid@[(
                        #[trigger] g0[newly@[k] as int].surr_indices@[m]) as int].action
                            == CellAction::Cleared || stack@.contains(
                            g0[newly@[k] as int].surr_indices@[m],
                        ) by {
                            let x = g0[newly@[k] as int].surr_indices@[m];
                            if self.grid@[x as int].action != CellAction::Cleared {
                                assert(stack_pre.contains(x));
                                let j = choose|j: int|
                                    0 <= j < stack_pre.len() && stack_pre[j] == x;
                                assert(j != stack_pre.len() - 1);
                                assert(stack@[j] == x);
                            }
                        }
                    }
                }
                continue;
            }
            set_cell_action(&mut self.grid, index, CellAction::Cleared);
            newly.push(index);
            proof {
                why_new = why_new.push(why);
                assert(self.grid@ =~= grid_pre.update(index as int, self.grid@[index as int]));
                assert(self.cell_ok(index as int)) by {
                    let c_old = grid_pre[index as int];
                    let c_new = self.grid@[index as int];
                    assert(c_new.mine == c_old.mine);
                    assert(c_new.surr_indices@ == c_old.surr_indices@);
                    assert(c_new.surr_mine_count == c_old.surr_mine_count);
                    assert(old(self).cell_ok(index as int));
                }
                assert(newly@ =~= newly_pre.push(index));
                assert(forall|k: int| 0 <= k < newly_pre.len() ==> newly@[k] == newly_pre[k]);
                assert(newly@[newly@.len() - 1] == index);
                assert(newly@.contains(index));
                assert forall|j: int|
                    0 <= j < g0.len() && j != index implies (#[trigger] newly@.contains(j as usize)
                    == newly_pre.contains(j as usize)) by {
                    if newly@.contains(j as usize) {
                        let k = choose|k: int| 0 <= k < newly@.len() && newly@[k] == j as usize;
                        assert(k < newly_pre.len());
                        assert(newly_pre[k] == j as usize);
                    }
                    if newly_pre.contains(j as usize) {
                        let k = choose|k: int|
                            0 <= k < newly_pre.len() && newly_pre[k] == j as usize;
                        assert(newly@[k] == j as usize);
                    }
                }
                lemma_count_if_update(
                    grid_pre,
                    uncleared_pred(),
                    self.size(),
                    index as int,
                    self.grid@[index as int],
                );
                lemma_count_if_update(
                    grid_pre,
                    rem_pred(),
                    self.size(),
                    index as int,
                    self.grid@[index as int],
                );
                lemma_count_if_bounds(self.grid@, rem_pred(), self.size());
                newly_pre.lemma_filter_push(index, freep);
                assert(!newly_pre.contains(index));
                assert forall|k: int|
                    0 <= k < req0.len() implies self.grid@[#[trigger] req0[k] as int].action
                    == CellAction::Cleared || stack@.contains(req0[k]) by {
                    if self.grid@[req0[k] as int].action != CellAction::Cleared {
                        assert(req0[k] != index);
                        assert(grid_pre[req0[k] as int].action != CellAction::Cleared);
                        assert(stack_pre.contains(req0[k]));
                        let j = choose|j: int| 0 <= j < stack_pre.len() && stack_pre[j] == req0[k];
                        assert(stack_pre[j] == req0[k]);
                        assert(stack_pre[stack_pre.len() - 1] == index);
                        assert(j != stack_pre.len() - 1);
                        assert(j < stack@.len());
                        assert(stack@[j] == req0[k]);
                    }
                }
            }
            let is_mine = self.grid[index].mine;
            if is_mine {
                self.game_state = GameState::Lose;
                proof {
                    assert(mine_hit(g0, newly@));
                    assert(newly@.filter(freep) =~= newly_pre.filter(freep));
                }
            } else {
                proof {
                    assert(is_rem(grid_pre[index as int]));
                    assert(self.cells_rem >= 1);
                }
                if self.autoclear && self.grid[index].surr_mine_count == 0 {
                    let ghost stack_mid = stack@;
                    let surr = copy_cell_surr(&self.grid, index);
                    push_all(&mut stack, &surr);
                    proof {
                        let ghost why_mid = why_stack;
                        why_stack = why_stack + Seq::new(
                            surr@.len(),
                            |k2: int| newly@.len() - 1,
                        );
                        assert(forall|j: int|
                            0 <= j < stack_mid.len() ==> #[trigger] stack@[j] == stack_mid[j]);
                        assert(forall|j: int|
                            0 <= j < why_mid.len() ==> #[trigger] why_stack[j] == why_mid[j]);
                        assert(newly@[newly@.len() - 1] == index);
                        assert forall|k2: int|
                            0 <= k2 < stack@.len() && why_stack[k2] >= 0 implies self.autoclear && 0
                            <= why_stack[k2] < newly@.len() && !g0[newly@[why_stack[k2]] as int].mine
                            && g0[newly@[why_stack[k2]] as int].surr_mine_count == 0 && g0[newly@[#[trigger] why_stack[k2]] as int].surr_indices@.contains(
                            stack@[k2],
                        ) by {
                            if k2 >= stack_mid.len() {
                                let m2 = k2 - stack_mid.len();
                                assert(stack@[k2] == surr@[m2]);
                                assert(surr@[m2] == g0[index as int].surr_indices@[m2]);
                                assert(g0[index as int].surr_indices@.contains(stack@[k2]));
                                assert(why_stack[k2] == newly@.len() - 1);
                            }
                        }
                        assert forall|k: int|
                            0 <= k < req0.len() implies self.grid@[#[trigger] req0[k] as int].action
                            == CellAction::Cleared || stack@.contains(req0[k]) by {
                            if self.grid@[req0[k] as int].action != CellAction::Cleared {
                                assert(stack_mid.contains(req0[k]));
                                let j = choose|j: int|
                                    0 <= j < stack_mid.len() && stack_mid[j] == req0[k];
                                assert(stack@[j] == req0[k]);
                            }
                        }
                        assert forall|k: int| 0 <= k < stack@.len() implies stack@[k]
                            < self.size() by {
                            if k < stack_mid.len() {
                            } else {
                                let i2 = index as int;
                                assert(self.cell_ok(i2));
                                let kk = k - stack_mid.len();
                                assert(surr_spec(
                                    coords_of(i2, self.dims@),
                                    self.dims@,
                                    g0[i2].surr_indices@[kk] as int,
                                ));
                            }
                        }
                    }
                }
                self.cells_rem = self.cells_rem - 1;
                if self.cells_rem == 0 && matches!(self.game_state, GameState::Ongoing) {
                    self.game_state = GameState::Win;
                }
                proof {
                    assert(newly@.filter(freep) =~= newly_pre.filter(freep).push(index));
                    if mine_hit(g0, newly@) && !mine_hit(g0, newly_pre) {
                        let k = choose|k: int|
                            0 <= k < newly@.len() && g0[newly@[k] as int].mine;
                        assert(k == newly@.len() - 1);
                        assert(false);
                    }
                }
            }
            proof {
                if self.autoclear {
                    let did_push = !g0[index as int].mine && g0[index as int].surr_mine_count == 0;
                    assert forall|k: int, m: int|
                        0 <= k < newly@.len() && !g0[newly@[k] as int].mine && g0[newly@[k] as int].surr_mine_count
                            == 0 && 0 <= m < g0[newly@[k] as int].surr_indices@.len() implies self.grid@[(
                    #[trigger] g0[newly@[k] as int].surr_indices@[m]) as int].action
                        == CellAction::Cleared || stack@.contains(
                        g0[newly@[k] as int].surr_indices@[m],
                    ) by {
                        let x = g0[newly@[k] as int].surr_indices@[m];
                        assert(old(self).cell_ok(newly@[k] as int));
                        assert(surr_spec(
                            coords_of(newly@[k] as int, self.dims@),
                            self.dims@,
                            x as int,
                        ));
                        assert((x as int) < self.size());
                        if k < newly_pre.len() {
                            if grid_pre[x as int].action == CellAction::Cleared {
                                assert(self.grid@[x as int].action == CellAction::Cleared);
                            } else {
                                assert(stack_pre.contains(x));
                                let j = choose|j: int|
                                    0 <= j < stack_pre.len() && stack_pre[j] == x;
                                if j == stack_pre.len() - 1 {
                                    assert(x == index);
                                    assert(self.grid@[index as int].action
                                        == CellAction::Cleared);
                                } else {
                                    assert(stack@[j] == x);
                                }
                            }
                        } else {
                            assert(newly@[k] == index);
                            assert(did_push);
                            assert(stack@[stack_pre.len() - 1 + m] == x);
                        }
                    }
                }
                assert(count_if(self.grid@, uncleared_pred(), self.size()) < count_if(
                    grid_pre,
                    uncleared_pred(),
                    self.size(),
                ));
                lemma_count_if_bounds(self.grid@, uncleared_pred(), self.size());
                assert(valid_spec(self.dims@, self.mines));
                assert(self.grid@.len() == self.size());
                assert forall|i: int| 0 <= i < self.grid@.len() implies #[trigger] self.cell_ok(
                    i,
                ) by {
                    assert(old(self).cell_ok(i));
                    assert(self.grid@[i].mine == g0[i].mine);
                    assert(self.grid@[i].surr_indices@ == g0[i].surr_indices@);
                    assert(self.grid@[i].surr_mine_count == g0[i].surr_mine_count);
                }
                assert(self.cells_rem == count_if(self.grid@, rem_pred(), self.size()));
                assert(self.game_state == GameState::Win ==> self.cells_rem == 0);
                assert(self.game_state == GameState::Ongoing ==> self.cells_rem > 0);
            }
        }
        proof {
            if self.autoclear {
                assert forall|k: int, m: int|
                    0 <= k < newly@.len() && !g0[newly@[k] as int].mine && g0[newly@[k] as int].surr_mine_count
                        == 0 && 0 <= m < g0[newly@[k] as int].surr_indices@.len() implies self.grid@[(
                #[trigger] g0[newly@[k] as int].surr_indices@[m]) as int].action
                    == CellAction::Cleared || Seq::<usize>::empty().contains(
                    g0[newly@[k] as int].surr_indices@[m],
                ) by {
                    let x = g0[newly@[k] as int].surr_indices@[m];
                    assert(!stack@.contains(x));
                }
            }
            assert(flood_sound(g0, req0, newly@, old(self).autoclear)) by {
                reveal(flood_sound);
                assert forall|k: int| 0 <= k < newly@.len() implies req0.contains(
                    #[trigger] newly@[k],
                ) || (old(self).autoclear && exists|w: int|
                    0 <= w < newly@.len() && !g0[#[trigger] newly@[w] as int].mine && g0[newly@[w] as int].surr_mine_count
                        == 0 && g0[newly@[w] as int].surr_indices@.contains(newly@[k])) by {
                    if why_new[k] >= 0 {
                        let w = why_new[k];
                        assert(0 <= w < newly@.len() && !g0[newly@[w] as int].mine && g0[newly@[w] as int].surr_mine_count
                            == 0 && g0[newly@[w] as int].surr_indices@.contains(newly@[k]));
                    }
                }
            }
        }
        newly
    }
}

/// A fresh copy of the neighbor list of cell `i`.
fn copy_cell_surr(grid: &Vec<Cell>, i: usize) -> (r: Vec<usize>)
    requires
        i < grid@.len(),
    ensures
        r@ == grid@[i as int].surr_indices@,
{
    let cell = &grid[i];
    let mut r: Vec<usize> = Vec::new();
    let mut k: usize = 0;
    while k < cell.surr_indices.len()
        invariant
            k <= cell.surr_indices@.len(),
            r@ == cell.surr_indices@.take(k as int),
        decreases cell.surr_indices@.len() - k,
    {
        r.push(cell.surr_indices[k]);
        proof {
            assert(cell.surr_indices@.take(k + 1) =~= cell.surr_indices@.take(k as int).push(
                cell.surr_indices@[k as int],
            ));
        }
        k = k + 1;
    }
    proof {
        assert(cell.surr_indices@.take(cell.surr_indices@.len() as int) =~= cell.surr_indices@);
    }
    r
}

/// Append every item to the stack.
fn push_all(stack: &mut Vec<usize>, items: &Vec<usize>)
    ensures
        final (stack)@ == old(stack)@ + items@,
{
    let mut k: usize = 0;
    while k < items.len()
        invariant
            k <= items@.len(),
            stack@ == old(stack)@ + items@.take(k as int),
        decreases items@.len() - k,
    {
        stack.push(items[k]);
        proof {
            assert(old(stack)@ + items@.take(k + 1) =~= (old(stack)@ + items@.take(k as int)).push(
                items@[k as int],
            ));
        }
        k = k + 1;
    }
    proof {
        assert(old(stack)@ + items@.take(items@.len() as int) =~= old(stack)@ + items@);
    }
}

/// A sequence's filtered length equals its count under the same predicate.
pub proof fn lemma_filter_len_is_count<T>(s: Seq<T>, p: spec_fn(T) -> bool)
    ensures
        s.filter(p).len() == count_if(s, p, s.len() as int),
    decreases s.len(),
{
    if s.len() == 0 {
        assert(s.filter(p) =~= Seq::<T>::empty());
    } else {
        lemma_filter_len_is_count(s.drop_last(), p);
        s.drop_last().lemma_filter_push(s.last(), p);
        assert(s.drop_last().push(s.last()) =~= s);
        lemma_count_if_agree(s, s.drop_last(), p, s.len() - 1);
    }
}

impl NativeServer {
    /// Apply `new_action` (a flag or an unflag) to each requested cell,
    /// skipping any cell already cleared or already in the requested state.
    /// Returns the indices actually changed, in request order.
    fn set_flags(&mut self, to_change: Vec<Coords>, new_action: CellAction) -> (actual: Vec<usize>)
        requires
            old(self).wf(),
            new_action != CellAction::Cleared,
            forall|k: int|
                0 <= k < to_change@.len() ==> in_bounds(#[trigger] to_change@[k]@, old(self).dims@),
        ensures
            final (self).wf(),
            NativeServer::same_board(*old(self), *final (self)),
            final (self).turns == old(self).turns,
            final (self).cells_rem == old(self).cells_rem,
            final (self).game_state == old(self).game_state,
            actual@.no_duplicates(),
            forall|k: int|
                0 <= k < actual@.len() ==> #[trigger] actual@[k] < old(self).size() && old(
                    self,
                ).grid@[actual@[k] as int].action != CellAction::Cleared && old(
                    self,
                ).grid@[actual@[k] as int].action != new_action,
            forall|j: int|
                0 <= j < old(self).grid@.len() ==> (#[trigger] final (self).grid@[j]).action == (
                if actual@.contains(j as usize) {
                    new_action
                } else {
                    old(self).grid@[j].action
                }),
    {
        let ghost g0 = old(self).grid@;
        let mut actual: Vec<usize> = Vec::new();
        let mut k: usize = 0;
        while k < to_change.len()
            invariant
                old(self).wf(),
                self.wf(),
                new_action != CellAction::Cleared,
                forall|k2: int|
                    0 <= k2 < to_change@.len() ==> in_bounds(
                        #[trigger] to_change@[k2]@,
                        old(self).dims@,
                    ),
                k <= to_change@.len(),
                g0 == old(self).grid@,
                NativeServer::same_board(*old(self), *self),
                self.turns == old(self).turns,
                self.cells_rem == old(self).cells_rem,
                self.game_state == old(self).game_state,
                actual@.no_duplicates(),
                forall|k2: int|
                    0 <= k2 < actual@.len() ==> #[trigger] actual@[k2] < self.size()
                        && g0[actual@[k2] as int].action != CellAction::Cleared
                        && g0[actual@[k2] as int].action != new_action,
                forall|j: int|
                    0 <= j < g0.len() ==> (#[trigger] self.grid@[j]).action == (
                    if actual@.contains(j as usize) {
                        new_action
                    } else {
                        g0[j].action
                    }),
            decreases to_change@.len() - k,
        {
            let index = to_change[k].to_index(&self.dims);
            let a = self.grid[index].action;
            if a != new_action && a != CellAction::Cleared {
                let ghost grid_pre = self.grid@;
                let ghost actual_pre = actual@;
                set_cell_action(&mut self.grid, index, new_action);
                actual.push(index);
                proof {
                    assert(self.grid@ =~= grid_pre.update(index as int, self.grid@[index as int]));
                    assert(self.cell_ok(index as int)) by {
                        assert(old(self).cell_ok(index as int));
                    }
                    assert forall|i: int|
                        0 <= i < self.grid@.len() implies #[trigger] self.cell_ok(i) by {
                        assert(old(self).cell_ok(i));
                        assert(self.grid@[i].mine == g0[i].mine);
                        assert(self.grid@[i].surr_indices@ == g0[i].surr_indices@);
                        assert(self.grid@[i].surr_mine_count == g0[i].surr_mine_count);
                    }
                    lemma_count_if_update(
                        grid_pre,
                        rem_pred(),
                        self.size(),
                        index as int,
                        self.grid@[index as int],
                    );
                    assert(actual@ =~= actual_pre.push(index));
                    assert(forall|k2: int|
                        0 <= k2 < actual_pre.len() ==> actual@[k2] == actual_pre[k2]);
                    assert(actual@[actual@.len() - 1] == index);
                    assert(actual@.contains(index));
                    assert forall|j: int|
                        0 <= j < g0.len() && j != index implies (#[trigger] actual@.contains(
                        j as usize,
                    ) == actual_pre.contains(j as usize)) by {
                        if actual@.contains(j as usize) {
                            let k2 = choose|k2: int|
                                0 <= k2 < actual@.len() && actual@[k2] == j as usize;
                            assert(k2 < actual_pre.len());
                            assert(actual_pre[k2] == j as usize);
                        }
                        if actual_pre.contains(j as usize) {
                            let k2 = choose|k2: int|
                                0 <= k2 < actual_pre.len() && actual_pre[k2] == j as usize;
                            assert(actual@[k2] == j as usize);
                        }
                    }
                    assert(!actual_pre.contains(index));
                }
            }
            k = k + 1;
        }
        actual
    }

    /// What the server tells the client about the cell at `index`.
    fn client_cell_info(&self, index: usize) -> (r: CellInfo)
        requires
            self.wf(),
            index < self.size(),
        ensures
            r.coords@ == coords_of(index as int, self.dims@),
            in_bounds(r.coords@, self.dims@),
            r.mine == self.grid@[index as int].mine,
            r.surrounding == self.grid@[index as int].surr_mine_count,
    {
        proof {
            lemma_coords_of_in_bounds(index as int, self.dims@);
        }
        let coords = Coords::from_index(index, &self.dims);
        let cell = &self.grid[index];
        CellInfo { coords, mine: cell.mine, surrounding: cell.surr_mine_count }
    }

    /// Apply one turn: reveal the requested cells (flood-filling when
    /// autoclear is on), then apply flags and unflags, and report every cell
    /// revealed this turn. A turn on a finished game fails and changes
    /// nothing.
    #[verifier::rlimit(100)]
    pub fn turn(&mut self, clear: Vec<Coords>, flag: Vec<Coords>, unflag: Vec<Coords>) -> (r:
        Result<Vec<CellInfo>, GameError>)
        requires
            old(self).wf(),
            forall|k: int|
                0 <= k < clear@.len() ==> in_bounds(#[trigger] clear@[k]@, old(self).dims@),
            forall|k: int|
                0 <= k < flag@.len() ==> in_bounds(#[trigger] flag@[k]@, old(self).dims@),
            forall|k: int|
                0 <= k < unflag@.len() ==> in_bounds(#[trigger] unflag@[k]@, old(self).dims@),
        ensures
            final (self).wf(),
            NativeServer::same_board(*old(self), *final (self)),
            r is Err <==> old(self).game_state != GameState::Ongoing,
            r is Err ==> *final (self) == *old(self) && r == Err::<Vec<CellInfo>, GameError>(
                GameError::GameFinished,
            ),
            match r {
                Ok(infos) => {
                    // each reported cell was newly revealed, with its ground truth
                    &&& forall|k: int|
                        0 <= k < infos@.len() ==> {
                            let ci = #[trigger] infos@[k];
                            let j = index_of(ci.coords@, old(self).dims@);
                            &&& in_bounds(ci.coords@, old(self).dims@)
                            &&& 0 <= j < old(self).size()
                            &&& ci.mine == old(self).grid@[j].mine
                            &&& ci.surrounding == old(self).grid@[j].surr_mine_count
                            &&& old(self).grid@[j].action != CellAction::Cleared
                            &&& final (self).grid@[j].action == CellAction::Cleared
                        }
                    // every requested cell ends cleared
                    &&& forall|k: int|
                        0 <= k < clear@.len() ==> final (self).grid@[index_of(
                            #[trigger] clear@[k]@,
                            old(self).dims@,
                        )].action == CellAction::Cleared
                    // progress is monotone and exactly accounted
                    &&& final (self).cells_rem <= old(self).cells_rem
                    &&& final (self).cells_rem == old(self).cells_rem - count_if(
                        infos@,
                        mine_free_info(),
                        infos@.len() as int,
                    )
                    // the game ends in a win exactly when no cell remains, and a
                    // revealed mine loses the game
                    &&& ((forall|k: int| 0 <= k < infos@.len() ==> !(#[trigger] infos@[k]).mine)
                        && final (self).cells_rem > 0 ==> final (self).game_state
                        == GameState::Ongoing)
                    &&& ((exists|k: int| 0 <= k < infos@.len() && (#[trigger] infos@[k]).mine)
                        ==> final (self).game_state == GameState::Lose)
                    &&& ((forall|k: int| 0 <= k < infos@.len() ==> !(#[trigger] infos@[k]).mine)
                        && final (self).cells_rem == 0 ==> final (self).game_state
                        == GameState::Win)
                    &&& (final (self).game_state == GameState::Win ==> final (self).cells_rem
                        == 0)
                    // every cell cleared by this turn is reported, and each
                    // report names a distinct cell
                    &&& forall|j: int|
                        0 <= j < old(self).grid@.len() ==> ((#[trigger] final (self).grid@[j]).action
                            == CellAction::Cleared <==> (old(self).grid@[j].action
                            == CellAction::Cleared || exists|k: int|
                            0 <= k < infos@.len() && index_of(
                                (#[trigger] infos@[k]).coords@,
                                old(self).dims@,
                            ) == j))
                    &&& forall|k1: int, k2: int|
                        0 <= k1 < k2 < infos@.len() ==> index_of(
                            (#[trigger] infos@[k1]).coords@,
                            old(self).dims@,
                        ) != index_of((#[trigger] infos@[k2]).coords@, old(self).dims@)
                    // the reveals are sound: each was requested or neighbors
                    // a revealed zero-count cell
                    &&& flood_sound(
                        old(self).grid@,
                        Seq::new(
                            clear@.len(),
                            |k: int| index_of(clear@[k]@, old(self).dims@) as usize,
                        ),
                        Seq::new(
                            infos@.len(),
                            |k: int| index_of(infos@[k].coords@, old(self).dims@) as usize,
                        ),
                        old(self).autoclear,
                    )
                    // with autoclear on, every neighbor of a revealed
                    // zero-count cell is revealed too
                    &&& old(self).autoclear ==> forall|k: int, m: int|
                        0 <= k < infos@.len() && !infos@[k].mine && infos@[k].surrounding == 0 && 0
                            <= m < old(self).grid@[index_of(
                            infos@[k].coords@,
                            old(self).dims@,
                        )].surr_indices@.len() ==> final (self).grid@[(#[trigger] old(
                            self,
                        ).grid@[index_of(infos@[k].coords@, old(self).dims@)].surr_indices@[m]) as int].action
                            == CellAction::Cleared
                },
                Err(_) => true,
            },
    {
        if !matches!(self.game_state, GameState::Ongoing) {
            return Err(GameError::GameFinished);
        }
        let ghost pre = *self;
        let mut clear_req: Vec<usize> = Vec::new();
        let mut k: usize = 0;
        while k < clear.len()
            invariant
                pre.wf(),
                pre == *self,
                forall|k2: int|
                    0 <= k2 < clear@.len() ==> in_bounds(#[trigger] clear@[k2]@, pre.dims@),
                k <= clear@.len(),
                clear_req@.len() == k,
                forall|k2: int|
                    0 <= k2 < k ==> #[trigger] clear_req@[k2] == index_of(clear@[k2]@, pre.dims@)
                        && clear_req@[k2] < pre.size(),
            decreases clear@.len() - k,
        {
            let idx = clear[k].to_index(&self.dims);
            clear_req.push(idx);
            k = k + 1;
        }
        let ghost req = clear_req@;
        let clear_req_copy = copy_vec(&clear_req);
        let newly = self.clear_cells(clear_req);
        let ghost mid = *self;
        let flagged = self.set_flags(flag, CellAction::Flagged);
        let unflagged = self.set_flags(unflag, CellAction::NoAction);
        proof {
            assert forall|j: int|
                0 <= j < pre.grid@.len() implies ((#[trigger] self.grid@[j]).action
                == CellAction::Cleared <==> (newly@.contains(j as usize) || pre.grid@[j].action
                == CellAction::Cleared)) by {
                assert(mid.grid@[j].action == (if newly@.contains(j as usize) {
                    CellAction::Cleared
                } else {
                    pre.grid@[j].action
                }));
            }
        }
        let mut infos: Vec<CellInfo> = Vec::new();
        let mut k2: usize = 0;
        while k2 < newly.len()
            invariant
                self.wf(),
                pre.wf(),
                NativeServer::same_board(pre, *self),
                forall|j: int| 0 <= j < newly@.len() ==> #[trigger] newly@[j] < pre.size(),
                k2 <= newly@.len(),
                infos@.len() == k2,
                forall|j: int|
                    0 <= j < k2 ==> {
                        let ci = #[trigger] infos@[j];
                        &&& ci.coords@ == coords_of(newly@[j] as int, pre.dims@)
                        &&& in_bounds(ci.coords@, pre.dims@)
                        &&& ci.mine == pre.grid@[newly@[j] as int].mine
                        &&& ci.surrounding == pre.grid@[newly@[j] as int].surr_mine_count
                    },
            decreases newly@.len() - k2,
        {
            let info = self.client_cell_info(newly[k2]);
            infos.push(info);
            k2 = k2 + 1;
        }
        if matches!(self.turns, Option::Some(_)) {
            let rec = TurnInfo {
                clear_req: clear_req_copy,
                clear_actual: copy_vec(&newly),
                flagged,
                unflagged,
                cells_rem: self.cells_rem,
                game_state: self.game_state,
            };
            self.record_turn(rec);
        }
        proof {
            assert(self.wf());
            assert forall|j: int|
                0 <= j < pre.grid@.len() implies {
                &&& (#[trigger] self.grid@[j]).mine == pre.grid@[j].mine
                &&& self.grid@[j].surr_indices@ == pre.grid@[j].surr_indices@
                &&& self.grid@[j].surr_mine_count == pre.grid@[j].surr_mine_count
            } by {
                assert(mid.grid@[j].mine == pre.grid@[j].mine);
            }
            assert(NativeServer::same_board(pre, *self));
            assert(self.cells_rem == mid.cells_rem);
            assert(self.game_state == mid.game_state);
            assert(mid.cells_rem == pre.cells_rem - cleared_free_count(pre.grid@, newly@));
            lemma_turn_counts(pre.grid@, newly@, infos@);
            assert(self.cells_rem == pre.cells_rem - count_if(
                infos@,
                mine_free_info(),
                infos@.len() as int,
            ));
            assert forall|j: int| 0 <= j < infos@.len() implies index_of(
                (#[trigger] infos@[j]).coords@,
                pre.dims@,
            ) == newly@[j] as int by {
                lemma_round_trip(newly@[j] as int, pre.dims@);
            }
            if exists|j: int| 0 <= j < infos@.len() && (#[trigger] infos@[j]).mine {
                let j = choose|j: int| 0 <= j < infos@.len() && (#[trigger] infos@[j]).mine;
                assert(pre.grid@[newly@[j] as int].mine);
                assert(mine_hit(pre.grid@, newly@));
            }
            if mine_hit(pre.grid@, newly@) {
                let j = choose|j: int| 0 <= j < newly@.len() && pre.grid@[newly@[j] as int].mine;
                assert(infos@[j].mine);
            }
            assert forall|k: int| 0 <= k < clear@.len() implies self.grid@[index_of(
                #[trigger] clear@[k]@,
                pre.dims@,
            )].action == CellAction::Cleared by {
                let j = req[k];
                assert(j == index_of(clear@[k]@, pre.dims@));
                assert(mid.grid@[j as int].action == CellAction::Cleared);
                assert(newly@.contains(j) || pre.grid@[j as int].action == CellAction::Cleared);
            }
            assert forall|k: int| 0 <= k < infos@.len() implies self.grid@[newly@[k] as int].action
                == CellAction::Cleared by {
                assert(0 <= k < newly@.len() && newly@[k] == newly@[k]);
                assert(newly@.contains(newly@[k]));
            }
            assert(req =~= Seq::new(
                clear@.len(),
                |k: int| index_of(clear@[k]@, pre.dims@) as usize,
            ));
            assert(newly@ =~= Seq::new(
                infos@.len(),
                |k: int| index_of(infos@[k].coords@, pre.dims@) as usize,
            ));
            if pre.autoclear {
                assert forall|k: int, m: int|
                    0 <= k < infos@.len() && !infos@[k].mine && infos@[k].surrounding == 0 && 0 <= m
                        < pre.grid@[index_of(infos@[k].coords@, pre.dims@)].surr_indices@.len() implies self.grid@[(
                #[trigger] pre.grid@[index_of(infos@[k].coords@, pre.dims@)].surr_indices@[m]) as int].action
                    == CellAction::Cleared by {
                    let j = newly@[k] as int;
                    assert(index_of(infos@[k].coords@, pre.dims@) == j);
                    assert(!pre.grid@[j].mine && pre.grid@[j].surr_mine_count == 0);
                    let x = pre.grid@[newly@[k] as int].surr_indices@[m];
                    assert(pre.cell_ok(j));
                    assert(surr_spec(coords_of(j, pre.dims@), pre.dims@, x as int));
                    assert((x as int) < pre.size());
                    assert(mid.grid@[x as int].action == CellAction::Cleared || Seq::<
                        usize,
                    >::empty().contains(x));
                    assert(!Seq::<usize>::empty().contains(x));
                    assert(newly@.contains(x) || pre.grid@[x as int].action
                        == CellAction::Cleared);
                    assert(self.grid@[x as int].action == CellAction::Cleared);
                }
            }
            assert forall|j: int|
                0 <= j < pre.grid@.len() implies ((#[trigger] self.grid@[j]).action
                == CellAction::Cleared <==> (pre.grid@[j].action == CellAction::Cleared || exists|
            k: int|
                0 <= k < infos@.len() && index_of(
                    (#[trigger] infos@[k]).coords@,
                    pre.dims@,
                ) == j)) by {
                if newly@.contains(j as usize) {
                    let k = choose|k: int| 0 <= k < newly@.len() && newly@[k] == j as usize;
                    assert(index_of(infos@[k].coords@, pre.dims@) == j);
                }
                if exists|k: int|
                    0 <= k < infos@.len() && index_of(
                        (#[trigger] infos@[k]).coords@,
                        pre.dims@,
                    ) == j {
                    let k = choose|k: int|
                        0 <= k < infos@.len() && index_of(
                            (#[trigger] infos@[k]).coords@,
                            pre.dims@,
                        ) == j;
                    assert(newly@[k] == j as usize);
                    assert(newly@.contains(j as usize));
                }
            }
        }
                Ok(infos)
    }

    /// Append one record to the turn history, when one is kept.
    fn record_turn(&mut self, rec: TurnInfo)
        requires
            old(self).wf(),
        ensures
            final (self).wf(),
            final (self).dims@ == old(self).dims@,
            final (self).grid@ == old(self).grid@,
            final (self).mines == old(self).mines,
            final (self).seed == old(self).seed,
            final (self).autoclear == old(self).autoclear,
            final (self).cells_rem == old(self).cells_rem,
            final (self).game_state == old(self).game_state,
    {
        match &mut self.turns {
            Option::Some(ts) => {
                ts.push(rec);
            },
            Option::None => (),
        }
        proof {
            assert(self.grid@ == old(self).grid@);
            assert forall|i: int| 0 <= i < self.grid@.len() implies #[trigger] self.cell_ok(
                i,
            ) by {
                assert(old(self).cell_ok(i));
            }
            assert(self.wf());
        }
    }

    /// The board's dimension sizes.
    pub fn dims(&self) -> (r: &Vec<usize>)
        ensures
            r@ == self.dims@,
    {
        &self.dims
    }

    /// How many mines the board was built with.
    pub fn mines(&self) -> (r: usize)
        ensures
            r == self.mines,
    {
        self.mines
    }

    /// The game's current lifecycle state.
    pub fn game_state(&self) -> (r: GameState)
        ensures
            r == self.game_state,
    {
        self.game_state
    }

    /// How many mine-free cells are still unrevealed.
    pub fn cells_rem(&self) -> (r: usize)
        ensures
            r == self.cells_rem,
    {
        self.cells_rem
    }
}

/// The glyph a cell renders as: untouched, flagged, a revealed mine, or the
/// revealed surrounding-mine count (blank for zero).
pub open spec fn glyph(c: Cell) -> char {
    match c.action {
        CellAction::NoAction => '\u{25a1}',
        CellAction::Flagged => '\u{2690}',
        CellAction::Cleared => if c.mine {
            '\u{2622}'
        } else if c.surr_mine_count == 0 {
            ' '
        } else if c.surr_mine_count > 9 {
            '9'
        } else {
            ((c.surr_mine_count + 48) as u8) as char
        },
    }
}

/// The flat index of the cell drawn at column `x` of row `y`: on a
/// one-dimensional board the row is ignored.
pub open spec fn repr_index(dims: Seq<usize>, x: int, y: int) -> int {
    if dims.len() == 1 {
        x
    } else {
        x * dims[1] + y
    }
}

/// The first `n` glyphs of row `y`, separated by spaces.
pub open spec fn row_chars(grid: Seq<Cell>, dims: Seq<usize>, y: int, n: int) -> Seq<char>
    decreases n,
{
    if n <= 0 {
        Seq::empty()
    } else {
        let prev = row_chars(grid, dims, y, n - 1);
        let cell = seq![glyph(grid[repr_index(dims, n - 1, y)])];
        if n == 1 {
            cell
        } else {
            prev + seq![' '] + cell
        }
    }
}

/// The first `m` rows of the board's rendering, separated by line breaks.
pub open spec fn grid_chars(grid: Seq<Cell>, dims: Seq<usize>, m: int) -> Seq<char>
    decreases m,
{
    if m <= 0 {
        Seq::empty()
    } else {
        let prev = grid_chars(grid, dims, m - 1);
        let row = row_chars(grid, dims, m - 1, dims[0] as int);
        if m == 1 {
            row
        } else {
            prev + seq!['\n'] + row
        }
    }
}

impl NativeServer {
    /// Render a board of at most two dimensions: one glyph per cell, columns
    /// separated by spaces, rows by line breaks. Boards of three or more
    /// dimensions have no flat rendering and are refused.
    pub fn grid_repr(&self) -> (r: Result<String, &'static str>)
        requires
            self.wf(),
        ensures
            r is Err <==> self.dims@.len() > 2,
            r matches Ok(s) ==> s@ == grid_chars(
                self.grid@,
                self.dims@,
                if self.dims@.len() >= 2 {
                    self.dims@[1] as int
                } else {
                    1
                },
            ),
    {
        if self.dims.len() > 2 {
            return Err("can only render a game of at most 2 dimensions");
        }
        let cols = self.dims[0];
        let rows = if self.dims.len() >= 2 {
            self.dims[1]
        } else {
            1
        };
        let ghost rows_int = rows as int;
        let mut out: Vec<char> = Vec::new();
        let mut y: usize = 0;
        while y < rows
            invariant
                self.wf(),
                self.dims@.len() <= 2,
                cols == self.dims@[0],
                rows_int == rows as int,
                rows_int == (if self.dims@.len() >= 2 {
                    self.dims@[1] as int
                } else {
                    1int
                }),
                y <= rows,
                out@ == grid_chars(self.grid@, self.dims@, y as int),
            decreases rows - y,
        {
            if y > 0 {
                out.push('\n');
            }
            let ghost row_start = out@;
            let mut x: usize = 0;
            while x < cols
                invariant
                    self.wf(),
                    self.dims@.len() <= 2,
                    cols == self.dims@[0],
                    rows_int == (if self.dims@.len() >= 2 {
                        self.dims@[1] as int
                    } else {
                        1int
                    }),
                    y < rows,
                    rows_int == rows as int,
                    x <= cols,
                    out@ == row_start + row_chars(self.grid@, self.dims@, y as int, x as int),
                decreases cols - x,
            {
                if x > 0 {
                    out.push(' ');
                }
                proof {
                    assert(volume(Seq::<usize>::empty()) == 1);
                    if self.dims@.len() == 1 {
                        assert(self.dims@.drop_last() =~= Seq::<usize>::empty());
                        assert(volume(self.dims@) == volume(self.dims@.drop_last())
                            * self.dims@.last());
                        assert(volume(self.dims@) == self.dims@[0]) by (nonlinear_arith)
                            requires
                                volume(self.dims@) == 1 * self.dims@[0],
                        ;
                    } else {
                        assert(self.dims@.drop_last().drop_last() =~= Seq::<usize>::empty());
                        assert(volume(self.dims@.drop_last()) == volume(
                            self.dims@.drop_last().drop_last(),
                        ) * self.dims@.drop_last().last());
                        assert(self.dims@.drop_last().last() == self.dims@[0]);
                        assert(volume(self.dims@) == volume(self.dims@.drop_last())
                            * self.dims@.last());
                        assert(x * self.dims@[1] + y < volume(self.dims@)) by (nonlinear_arith)
                            requires
                                x < self.dims@[0],
                                y < self.dims@[1],
                                volume(self.dims@) == (1 * self.dims@[0]) * self.dims@[1],
                        ;
                    }
                }
                let index = if self.dims.len() == 1 {
                    x
                } else {
                    x * self.dims[1] + y
                };
                proof {
                    assert(index as int == repr_index(self.dims@, x as int, y as int));
                    assert(index < self.grid@.len());
                }
                let cell = &self.grid[index];
                let c: char = match cell.action {
                    CellAction::NoAction => '\u{25a1}',
                    CellAction::Flagged => '\u{2690}',
                    CellAction::Cleared => {
                        if cell.mine {
                            '\u{2622}'
                        } else if cell.surr_mine_count == 0 {
                            ' '
                        } else if cell.surr_mine_count > 9 {
                            '9'
                        } else {
                            ((cell.surr_mine_count + 48) as u8) as char
                        }
                    },
                };
                out.push(c);
                proof {
                    assert(out@ =~= row_start + row_chars(
                        self.grid@,
                        self.dims@,
                        y as int,
                        x + 1,
                    ));
                }
                x = x + 1;
            }
            proof {
                assert(out@ =~= grid_chars(self.grid@, self.dims@, y + 1));
            }
            y = y + 1;
        }
        Ok(chars_to_string(&out))
    }
}

/// Relies on `String::from_iter` (through `collect`): the string holds
/// exactly the given characters, in order.
#[verifier::external_body]
fn chars_to_string(v: &Vec<char>) -> (r: String)
    ensures
        r@ == v@,
{
    v.iter().collect()
}

/// A reported cell that was not a mine.
pub open spec fn mine_free_info() -> spec_fn(CellInfo) -> bool {
    |ci: CellInfo| !ci.mine
}

/// Counting mine-free reports over `infos` matches counting mine-free cells
/// over the indices they were built from.
proof fn lemma_turn_counts(pre_grid: Seq<Cell>, newly: Seq<usize>, infos: Seq<CellInfo>)
    requires
        infos.len() == newly.len(),
        forall|j: int|
            0 <= j < infos.len() ==> (#[trigger] infos[j]).mine == pre_grid[newly[j] as int].mine,
    ensures
        count_if(infos, mine_free_info(), infos.len() as int) == cleared_free_count(
            pre_grid,
            newly,
        ),
{
    let freep = |x: usize| !pre_grid[x as int].mine;
    lemma_filter_len_is_count(newly, freep);
    lemma_count_mapped(pre_grid, newly, infos, newly.len() as int);
}

/// The two counts agree on every prefix.
proof fn lemma_count_mapped(pre_grid: Seq<Cell>, newly: Seq<usize>, infos: Seq<CellInfo>, n: int)
    requires
        infos.len() == newly.len(),
        n <= newly.len(),
        forall|j: int|
            0 <= j < infos.len() ==> (#[trigger] infos[j]).mine == pre_grid[newly[j] as int].mine,
    ensures
        count_if(infos, mine_free_info(), n) == count_if(
            newly,
            |x: usize| !pre_grid[x as int].mine,
            n,
        ),
    decreases n,
{
    if n > 0 {
        lemma_count_mapped(pre_grid, newly, infos, n - 1);
    }
}

} // verus!
