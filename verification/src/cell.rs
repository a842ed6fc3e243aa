//! The per-cell constraint state machine of the solver, the worklist actions
//! it emits, and the pairwise linear-constraint solver that resolves
//! deductions spanning two cells' neighbor sets.

use vstd::prelude::*;

use crate::action_queue::{added, vec_contains, ActionQueue};

verus! {

/// A unit of propagation on the solver's worklist.
#[derive(Clone, Copy, Debug, PartialEq, Eq, Structural)]
pub enum Action {
    Single { index: usize, action_type: SingleCellAction },
    Pair { index1: usize, index2: usize, action_type: CellPairAction },
}

#[derive(Clone, Copy, Debug, PartialEq, Eq, Structural)]
pub enum SingleCellAction {
    /// The neighbor `surr` is now known clear.
    MarkSurrEmpty { surr: usize },
    /// The neighbor `surr` is now known to be a mine.
    MarkSurrMine { surr: usize },
    /// The server revealed this cell with `mines` mines around it.
    ClientClear { mines: usize },
    /// This cell is proven safe: submit it to the server as a clear request.
    ServerClear,
    /// This cell is proven to be a mine: submit a flag and tell neighbors.
    Flag,
}

#[derive(Clone, Copy, Debug, PartialEq, Eq, Structural)]
pub enum CellPairAction {
    /// Cross-check the constraints of two cells' unresolved neighbor sets.
    CompareSurr,
}

/// Solver-side state of one cell: unresolved while `Ongoing`, terminal once
/// `Complete` (never revisited).
#[derive(Debug)]
pub enum Cell {
    Ongoing(OngoingCell),
    Complete,
}

/// The constraint state of an unresolved cell.
#[derive(Debug)]
pub struct OngoingCell {
    /// This cell's own flat index.
    pub index: usize,
    /// Neighbors not yet classified as mine or clear.
    pub unknown_surr: Vec<usize>,
    /// All neighbors, fixed at construction.
    pub total_surr: Vec<usize>,
    /// The revealed number of mines among all neighbors, once known.
    pub total_surr_mines: Option<usize>,
    /// How many neighbors have been proven to be mines.
    pub known_surr_mines: usize,
}

impl OngoingCell {
    /// Well-formedness: the neighbor lists are duplicate-free, the unresolved
    /// neighbors are a subset of all neighbors, and the resolved-mine count
    /// never exceeds the neighbors resolved so far.
    pub open spec fn wf(&self) -> bool {
        &&& self.unknown_surr@.no_duplicates()
        &&& self.total_surr@.no_duplicates()
        &&& forall|x: usize| self.unknown_surr@.contains(x) ==> #[trigger] self.total_surr@.contains(x)
        &&& self.known_surr_mines + self.unknown_surr@.len() <= self.total_surr@.len()
    }

    /// How many of the still-unresolved neighbors must be mines, when the
    /// cell's own count has been revealed and is consistent.
    pub open spec fn spec_unknown_mines(&self) -> Option<usize> {
        match self.total_surr_mines {
            Some(m) => if self.known_surr_mines <= m {
                Some((m - self.known_surr_mines) as usize)
            } else {
                None
            },
            None => None,
        }
    }
}

/// One `Single` action per target index, all with the same action type.
pub open spec fn singles(targets: Seq<usize>, t: SingleCellAction) -> Seq<Action> {
    targets.map_values(|i: usize| Action::Single { index: i, action_type: t })
}

/// One pairwise-compare action per neighbor of the cell at `from`.
pub open spec fn pairs(from: usize, targets: Seq<usize>) -> Seq<Action> {
    targets.map_values(
        |i: usize| Action::Pair { index1: from, index2: i, action_type: CellPairAction::CompareSurr },
    )
}

/// The actions that classify a whole partition at once: all members are clear
/// when it holds no mine, all members are mines when it holds only mines, and
/// nothing otherwise.
pub open spec fn mark_actions(count: int, members: Seq<usize>) -> Seq<Action> {
    if count == 0 {
        singles(members, SingleCellAction::ServerClear)
    } else if count == members.len() {
        singles(members, SingleCellAction::Flag)
    } else {
        Seq::empty()
    }
}

/// The completion test: every unresolved neighbor is determined, either all
/// clear or all mines.
pub open spec fn complete_now(c: OngoingCell) -> bool {
    match c.spec_unknown_mines() {
        Some(u) => u == 0 || u == c.unknown_surr@.len(),
        None => false,
    }
}

/// What the completion check appends to the worklist: partition marks when it
/// fires, one pairwise compare against every neighbor otherwise.
pub open spec fn try_complete_emits(c: OngoingCell) -> Seq<Action> {
    match c.spec_unknown_mines() {
        Some(u) => if u == 0 || u == c.unknown_surr@.len() {
            mark_actions(u as int, c.unknown_surr@)
        } else {
            pairs(c.index, c.total_surr@)
        },
        None => pairs(c.index, c.total_surr@),
    }
}

/// How a single-cell action changes the cell's own state.
pub open spec fn step_cell_ok(pre: OngoingCell, post: OngoingCell, a: SingleCellAction) -> bool {
    match a {
        SingleCellAction::MarkSurrEmpty { surr } => {
            &&& post.index == pre.index
            &&& post.total_surr@ == pre.total_surr@
            &&& post.total_surr_mines == pre.total_surr_mines
            &&& post.known_surr_mines == pre.known_surr_mines
            &&& post.unknown_surr@ == pre.unknown_surr@.remove_value(surr)
        },
        SingleCellAction::MarkSurrMine { surr } => {
            &&& post.index == pre.index
            &&& post.total_surr@ == pre.total_surr@
            &&& post.total_surr_mines == pre.total_surr_mines
            &&& post.known_surr_mines == pre.known_surr_mines + (
            if pre.unknown_surr@.contains(surr) {
                1int
            } else {
                0int
            })
            &&& post.unknown_surr@ == pre.unknown_surr@.remove_value(surr)
        },
        SingleCellAction::ClientClear { mines } => {
            &&& post.index == pre.index
            &&& post.total_surr@ == pre.total_surr@
            &&& post.total_surr_mines == Some(mines)
            &&& post.known_surr_mines == pre.known_surr_mines
            &&& post.unknown_surr@ == pre.unknown_surr@
        },
        _ => {
            &&& post.index == pre.index
            &&& post.total_surr@ == pre.total_surr@
            &&& post.total_surr_mines == pre.total_surr_mines
            &&& post.known_surr_mines == pre.known_surr_mines
            &&& post.unknown_surr@ == pre.unknown_surr@
        },
    }
}

/// Whether the action finishes the cell: flagging always does, anything else
/// completes the cell exactly when the completion test fires afterwards.
pub open spec fn step_complete(post: OngoingCell, a: SingleCellAction) -> bool {
    match a {
        SingleCellAction::Flag => true,
        _ => complete_now(post),
    }
}

/// What a single-cell action appends to the worklist.
pub open spec fn step_emits(pre: OngoingCell, post: OngoingCell, a: SingleCellAction) -> Seq<
    Action,
> {
    match a {
        SingleCellAction::MarkSurrEmpty { .. } => try_complete_emits(post),
        SingleCellAction::MarkSurrMine { .. } => try_complete_emits(post),
        SingleCellAction::ClientClear { .. } => singles(
            pre.total_surr@,
            SingleCellAction::MarkSurrEmpty { surr: pre.index },
        ) + try_complete_emits(post),
        SingleCellAction::ServerClear => singles(
            pre.total_surr@,
            SingleCellAction::MarkSurrEmpty { surr: pre.index },
        ) + try_complete_emits(post),
        SingleCellAction::Flag => singles(
            pre.total_surr@,
            SingleCellAction::MarkSurrMine { surr: pre.index },
        ),
    }
}

/// The unresolved neighbors of `a` that `b` does not share.
pub open spec fn excl_of(a: Seq<usize>, b: Seq<usize>) -> Seq<usize> {
    a.filter(|x: usize| !b.contains(x))
}

/// The unresolved neighbors `a` and `b` share, in `a`'s order.
pub open spec fn common_of(a: Seq<usize>, b: Seq<usize>) -> Seq<usize> {
    a.filter(|x: usize| b.contains(x))
}

/// What a pairwise compare of two revealed cells appends to the worklist:
/// whatever the linear-constraint solver forces on the three partitions of
/// their unresolved neighbors, and nothing when it forces nothing.
pub open spec fn compare_emits(a: OngoingCell, b: OngoingCell) -> Seq<Action> {
    match (a.spec_unknown_mines(), b.spec_unknown_mines()) {
        (Some(ua), Some(ub)) => {
            let excl_a = excl_of(a.unknown_surr@, b.unknown_surr@);
            let common = common_of(a.unknown_surr@, b.unknown_surr@);
            let excl_b = excl_of(b.unknown_surr@, a.unknown_surr@);
            match solve_spec(
                excl_a.len() as int,
                common.len() as int,
                excl_b.len() as int,
                ua as int,
                ub as int,
            ) {
                Some(sol) => mark_actions(sol.0, excl_a) + mark_actions(sol.1, common)
                    + mark_actions(sol.2, excl_b),
                None => Seq::empty(),
            }
        },
        _ => Seq::empty(),
    }
}

/// A solution of the two-cell system: `x` mines in `a`'s exclusive partition,
/// `y` in the shared one, `z` in `b`'s exclusive one, within the partition
/// sizes, satisfying both cells' unresolved-mine counts.
pub open spec fn feasible(
    ex: int,
    ey: int,
    ez: int,
    a: int,
    b: int,
    x: int,
    y: int,
    z: int,
) -> bool {
    &&& 0 <= x <= ex
    &&& 0 <= y <= ey
    &&& 0 <= z <= ez
    &&& x + y == a
    &&& y + z == b
}

/// The pairwise solver on partition sizes `(ex, ey, ez)` and unresolved-mine
/// counts `(a, b)`: tightest interval per unknown; when one interval
/// collapses, all three values follow from the two linear equations.
pub open spec fn solve_spec(ex: int, ey: int, ez: int, a: int, b: int) -> Option<(int, int, int)> {
    let xmax = vstd::math::min(ex, a);
    let ymax = vstd::math::min(vstd::math::min(ey, a), b);
    let zmax = vstd::math::min(ez, b);
    let xmin = vstd::math::max(0, a - ymax);
    let ymin = vstd::math::max(vstd::math::max(0, a - xmax), b - zmax);
    let zmin = vstd::math::max(0, b - ymax);
    if xmin == xmax {
        Some((xmax, a - xmax, b - (a - xmax)))
    } else if ymin == ymax {
        Some((a - ymax, ymax, b - ymax))
    } else if zmin == zmax {
        Some((a - (b - zmax), b - zmax, zmax))
    } else {
        None
    }
}

/// Pairwise solver soundness: whenever the solver forces values, every
/// solution of the two linear equations within the partition bounds takes
/// exactly those values.
pub proof fn lemma_solver_sound(
    ex: int,
    ey: int,
    ez: int,
    a: int,
    b: int,
    x: int,
    y: int,
    z: int,
)
    requires
        feasible(ex, ey, ez, a, b, x, y, z),
        solve_spec(ex, ey, ez, a, b) is Some,
    ensures
        solve_spec(ex, ey, ez, a, b) == Some((x, y, z)),
{
}

/// Pairwise deduction soundness at the queue level: whatever feasible
/// solution `(x, y, z)` the two cells' constraints admit, a clear queued by
/// their cross-check names a cell of a partition that holds no mine in that
/// solution, and a flag names a cell of a partition all of whose members are
/// mines in it. Since `(x, y, z)` is arbitrary, every solution agrees on
/// every queued cell.
pub proof fn lemma_compare_sound(a: OngoingCell, b: OngoingCell, x: int, y: int, z: int, i: int)
    requires
        a.spec_unknown_mines() is Some,
        b.spec_unknown_mines() is Some,
        feasible(
            excl_of(a.unknown_surr@, b.unknown_surr@).len() as int,
            common_of(a.unknown_surr@, b.unknown_surr@).len() as int,
            excl_of(b.unknown_surr@, a.unknown_surr@).len() as int,
            a.spec_unknown_mines()->0 as int,
            b.spec_unknown_mines()->0 as int,
            x,
            y,
            z,
        ),
        0 <= i < compare_emits(a, b).len(),
    ensures
        compare_emits(a, b)[i] matches Action::Single { index, action_type } && {
            let excl_a = excl_of(a.unknown_surr@, b.unknown_surr@);
            let common = common_of(a.unknown_surr@, b.unknown_surr@);
            let excl_b = excl_of(b.unknown_surr@, a.unknown_surr@);
            &&& (action_type == SingleCellAction::ServerClear ==> ((excl_a.contains(index) && x
                == 0) || (common.contains(index) && y == 0) || (excl_b.contains(index) && z == 0)))
            &&& (action_type == SingleCellAction::Flag ==> ((excl_a.contains(index) && x
                == excl_a.len()) || (common.contains(index) && y == common.len()) || (
            excl_b.contains(index) && z == excl_b.len())))
            &&& (action_type == SingleCellAction::ServerClear || action_type
                == SingleCellAction::Flag)
        },
{
    let excl_a = excl_of(a.unknown_surr@, b.unknown_surr@);
    let common = common_of(a.unknown_surr@, b.unknown_surr@);
    let excl_b = excl_of(b.unknown_surr@, a.unknown_surr@);
    let ua = a.spec_unknown_mines()->0 as int;
    let ub = b.spec_unknown_mines()->0 as int;
    let sol = solve_spec(excl_a.len() as int, common.len() as int, excl_b.len() as int, ua, ub);
    assert(sol is Some);
    lemma_solver_sound(
        excl_a.len() as int,
        common.len() as int,
        excl_b.len() as int,
        ua,
        ub,
        x,
        y,
        z,
    );
    assert(sol == Some((x, y, z)));
    let ma = mark_actions(x, excl_a);
    let mb = mark_actions(y, common);
    let mc = mark_actions(z, excl_b);
    assert(compare_emits(a, b) == ma + mb + mc);
    lemma_mark_actions_member(x, excl_a);
    lemma_mark_actions_member(y, common);
    lemma_mark_actions_member(z, excl_b);
    if i < ma.len() {
        assert((ma + mb + mc)[i] == ma[i]);
    } else if i < ma.len() + mb.len() {
        assert((ma + mb + mc)[i] == mb[i - ma.len()]);
    } else {
        assert((ma + mb + mc)[i] == mc[i - ma.len() - mb.len()]);
    }
}

/// Every entry of a partition's mark block clears or flags a member of the
/// partition, and only when the forced count says all members are clear
/// (zero) or all are mines (the partition size).
proof fn lemma_mark_actions_member(count: int, members: Seq<usize>)
    ensures
        forall|j: int|
            0 <= j < mark_actions(count, members).len() ==> ((
            #[trigger] mark_actions(count, members)[j]) matches Action::Single { index, action_type }
                && members.contains(index) && ((action_type == SingleCellAction::ServerClear
                && count == 0) || (action_type == SingleCellAction::Flag && count
                == members.len()))),
{
    assert forall|j: int| 0 <= j < mark_actions(count, members).len() implies (
    #[trigger] mark_actions(count, members)[j]) matches Action::Single { index, action_type }
        && members.contains(index) && ((action_type == SingleCellAction::ServerClear && count == 0)
        || (action_type == SingleCellAction::Flag && count == members.len())) by {
        if count == 0 || count == members.len() {
            assert(members[j] == members[j]);
            assert(members.contains(members[j]));
        }
    }
}

/// The executable pairwise solver. Exactly mirrors `solve_spec`, and so
/// inherits its soundness: a forced assignment agrees with every feasible
/// solution.
pub fn solve_linear_constraints(sizes: (usize, usize, usize), mines: (usize, usize)) -> (r: Option<
    (usize, usize, usize),
>)
    ensures
        match r {
            Some(sol) => solve_spec(
                sizes.0 as int,
                sizes.1 as int,
                sizes.2 as int,
                mines.0 as int,
                mines.1 as int,
            ) == Some((sol.0 as int, sol.1 as int, sol.2 as int)),
            None => solve_spec(
                sizes.0 as int,
                sizes.1 as int,
                sizes.2 as int,
                mines.0 as int,
                mines.1 as int,
            ) is None,
        },
{
    let (ex, ey, ez) = sizes;
    let (a, b) = mines;
    let x_max = umin(ex, a);
    let y_max = umin(umin(ey, a), b);
    let z_max = umin(ez, b);
    let x_min = a - y_max;
    let y_min = umax(a - x_max, b - z_max);
    let z_min = b - y_max;
    if x_min == x_max {
        let x = x_max;
        let y = a - x;
        let z = b - y;
        Some((x, y, z))
    } else if y_min == y_max {
        let y = y_max;
        let x = a - y;
        let z = b - y;
        Some((x, y, z))
    } else if z_min == z_max {
        let z = z_max;
        let y = b - z;
        let x = a - y;
        Some((x, y, z))
    } else {
        None
    }
}

fn umin(a: usize, b: usize) -> (r: usize)
    ensures
        r as int == vstd::math::min(a as int, b as int),
{
    if a <= b {
        a
    } else {
        b
    }
}

fn umax(a: usize, b: usize) -> (r: usize)
    ensures
        r as int == vstd::math::max(a as int, b as int),
{
    if a >= b {
        a
    } else {
        b
    }
}

impl Cell {
    /// Whether the solver state of `c` is well-formed.
    pub open spec fn cell_wf(c: Cell) -> bool {
        match c {
            Cell::Ongoing(o) => o.wf(),
            Cell::Complete => true,
        }
    }

    /// Whether the cell has been cleared or flagged: it is retired, or its
    /// revealed count is known.
    pub open spec fn is_marked_spec(c: Cell) -> bool {
        match c {
            Cell::Ongoing(o) => o.total_surr_mines is Some,
            Cell::Complete => true,
        }
    }

    /// A fresh unresolved cell that knows its neighbors and nothing else.
    pub fn new(index: usize, surr_indices: Vec<usize>) -> (r: Cell)
        requires
            surr_indices@.no_duplicates(),
        ensures
            r matches Cell::Ongoing(c) && c.wf() && c.index == index && c.unknown_surr@
                == surr_indices@ && c.total_surr@ == surr_indices@ && c.total_surr_mines is None
                && c.known_surr_mines == 0,
    {
        let unknown = copy_vec(&surr_indices);
        Cell::Ongoing(
            OngoingCell {
                index,
                unknown_surr: unknown,
                total_surr: surr_indices,
                total_surr_mines: None,
                known_surr_mines: 0,
            },
        )
    }

    /// Whether this cell has been cleared or flagged; cells merely queued to
    /// be cleared do not count.
    pub fn is_marked(&self) -> (r: bool)
        ensures
            r == Cell::is_marked_spec(*self),
    {
        match self {
            Cell::Ongoing(c) => match c.total_surr_mines {
                None => false,
                Some(_) => true,
            },
            Cell::Complete => true,
        }
    }
}

impl OngoingCell {
    /// How many unresolved neighbors must still be mines, if this cell has
    /// been revealed and its counts are consistent.
    fn unknown_surr_mines(&self) -> (r: Option<usize>)
        ensures
            r == self.spec_unknown_mines(),
    {
        match self.total_surr_mines {
            Some(m) => m.checked_sub(self.known_surr_mines),
            None => None,
        }
    }

    /// Apply one single-cell action; returns whether the cell is complete as
    /// a result and must be retired by the caller.
    pub fn apply_action(&mut self, actions: &mut ActionQueue, action: SingleCellAction) -> (complete:
        bool)
        requires
            old(self).wf(),
            old(actions).wf(),
        ensures
            final (self).wf(),
            final (actions).wf(),
            step_cell_ok(*old(self), *final (self), action),
            complete == step_complete(*final (self), action),
            final (actions).pending() == old(actions).pending() + step_emits(
                *old(self),
                *final (self),
                action,
            ),
            final (actions).to_clear() == (
            if action is ServerClear && old(self).total_surr_mines is None {
                added(old(actions).to_clear(), old(self).index)
            } else {
                old(actions).to_clear()
            }),
            final (actions).to_flag() == (
            if action is Flag {
                added(old(actions).to_flag(), old(self).index)
            } else {
                old(actions).to_flag()
            }),
    {
        match action {
            SingleCellAction::MarkSurrEmpty { surr } => {
                self.mark_surr_empty(surr);
                self.try_complete(actions)
            },
            SingleCellAction::MarkSurrMine { surr } => {
                self.mark_surr_mine(surr);
                self.try_complete(actions)
            },
            SingleCellAction::ClientClear { mines } => {
                self.client_clear(actions, mines);
                self.try_complete(actions)
            },
            SingleCellAction::ServerClear => {
                self.server_clear(actions);
                self.try_complete(actions)
            },
            SingleCellAction::Flag => {
                self.flag(actions);
                true
            },
        }
    }

    /// Apply a pairwise action between this cell and a distinct one; both
    /// must be unresolved. Neither cell changes; only deductions are queued.
    pub fn apply_pair_action(
        &self,
        other: &OngoingCell,
        actions: &mut ActionQueue,
        action: CellPairAction,
    )
        requires
            old(actions).wf(),
        ensures
            final (actions).wf(),
            final (actions).pending() == old(actions).pending() + match action {
                CellPairAction::CompareSurr => compare_emits(*self, *other),
            },
            final (actions).to_clear() == old(actions).to_clear(),
            final (actions).to_flag() == old(actions).to_flag(),
    {
        match action {
            CellPairAction::CompareSurr => {
                self.compare_surr(other, actions);
            },
        }
    }

    /// Resolve the neighbor `surr` as clear.
    fn mark_surr_empty(&mut self, surr: usize)
        requires
            old(self).wf(),
        ensures
            final (self).wf(),
            final (self).index == old(self).index,
            final (self).total_surr@ == old(self).total_surr@,
            final (self).total_surr_mines == old(self).total_surr_mines,
            final (self).known_surr_mines == old(self).known_surr_mines,
            final (self).unknown_surr@ == old(self).unknown_surr@.remove_value(surr),
    {
        proof {
            lemma_remove_value_props(self.unknown_surr@, surr);
        }
        remove_from(&mut self.unknown_surr, surr);
    }

    /// Resolve the neighbor `surr` as a mine, counting it once.
    fn mark_surr_mine(&mut self, surr: usize)
        requires
            old(self).wf(),
        ensures
            final (self).wf(),
            step_cell_ok(*old(self), *final (self), SingleCellAction::MarkSurrMine { surr }),
    {
        proof {
            lemma_remove_value_props(self.unknown_surr@, surr);
        }
        if vec_contains(&self.unknown_surr, surr) {
            proof {
                let i = choose|i: int|
                    0 <= i < self.unknown_surr@.len() && self.unknown_surr@[i] == surr;
                assert(self.unknown_surr@.len() >= 1);
                vstd::std_specs::vec::axiom_spec_len(&self.total_surr);
                assert(self.known_surr_mines < usize::MAX);
            }
            remove_from(&mut self.unknown_surr, surr);
            self.known_surr_mines = self.known_surr_mines + 1;
        } else {
            proof {
                self.unknown_surr@.index_of_first_ensures(surr);
            }
        }
    }

    /// Record the revealed neighboring-mine count and tell every neighbor
    /// that this cell itself is known clear.
    fn client_clear(&mut self, actions: &mut ActionQueue, mines: usize)
        requires
            old(self).wf(),
            old(actions).wf(),
        ensures
            final (self).wf(),
            final (actions).wf(),
            step_cell_ok(*old(self), *final (self), SingleCellAction::ClientClear { mines }),
            final (actions).pending() == old(actions).pending() + singles(
                old(self).total_surr@,
                SingleCellAction::MarkSurrEmpty { surr: old(self).index },
            ),
            final (actions).to_clear() == old(actions).to_clear(),
            final (actions).to_flag() == old(actions).to_flag(),
    {
        self.total_surr_mines = Some(mines);
        push_singles(
            &self.total_surr,
            SingleCellAction::MarkSurrEmpty { surr: self.index },
            actions,
        );
    }

    /// This cell is proven safe: queue it for submission (unless the server
    /// already revealed it) and eagerly tell every neighbor it is clear.
    fn server_clear(&mut self, actions: &mut ActionQueue)
        requires
            old(self).wf(),
            old(actions).wf(),
        ensures
            final (self).wf(),
            final (actions).wf(),
            *final (self) == *old(self),
            final (actions).pending() == old(actions).pending() + singles(
                old(self).total_surr@,
                SingleCellAction::MarkSurrEmpty { surr: old(self).index },
            ),
            final (actions).to_clear() == (
            if old(self).total_surr_mines is None {
                added(old(actions).to_clear(), old(self).index)
            } else {
                old(actions).to_clear()
            }),
            final (actions).to_flag() == old(actions).to_flag(),
    {
        match self.total_surr_mines {
            None => actions.add_to_clear(self.index),
            Some(_) => (),
        }
        push_singles(
            &self.total_surr,
            SingleCellAction::MarkSurrEmpty { surr: self.index },
            actions,
        );
    }

    /// This cell is proven to be a mine: queue the flag for submission and
    /// tell every neighbor it is a mine.
    fn flag(&mut self, actions: &mut ActionQueue)
        requires
            old(self).wf(),
            old(actions).wf(),
        ensures
            final (self).wf(),
            final (actions).wf(),
            *final (self) == *old(self),
            final (actions).pending() == old(actions).pending() + singles(
                old(self).total_surr@,
                SingleCellAction::MarkSurrMine { surr: old(self).index },
            ),
            final (actions).to_clear() == old(actions).to_clear(),
            final (actions).to_flag() == added(old(actions).to_flag(), old(self).index),
    {
        actions.add_to_flag(self.index);
        push_singles(
            &self.total_surr,
            SingleCellAction::MarkSurrMine { surr: self.index },
            actions,
        );
    }

    /// The completion check: when every unresolved neighbor is determined,
    /// queue the marks and report completion; otherwise defer to pairwise
    /// compares against every neighbor.
    fn try_complete(&self, actions: &mut ActionQueue) -> (complete: bool)
        requires
            self.wf(),
            old(actions).wf(),
        ensures
            final (actions).wf(),
            complete == complete_now(*self),
            final (actions).pending() == old(actions).pending() + try_complete_emits(*self),
            final (actions).to_clear() == old(actions).to_clear(),
            final (actions).to_flag() == old(actions).to_flag(),
    {
        match self.unknown_surr_mines() {
            Some(u) => {
                if try_mark_cell_set(u, &self.unknown_surr, actions) {
                    return true;
                }
            },
            None => (),
        }
        push_pairs(self.index, &self.total_surr, actions);
        false
    }

    /// Cross-check this cell's constraints against another unresolved cell's:
    /// partition the two unresolved-neighbor sets, solve the two linear
    /// equations, and queue whatever is forced.
    fn compare_surr(&self, other: &OngoingCell, actions: &mut ActionQueue)
        requires
            old(actions).wf(),
        ensures
            final (actions).wf(),
            final (actions).pending() == old(actions).pending() + compare_emits(*self, *other),
            final (actions).to_clear() == old(actions).to_clear(),
            final (actions).to_flag() == old(actions).to_flag(),
    {
        let sm = self.unknown_surr_mines();
        let om = other.unknown_surr_mines();
        match (sm, om) {
            (Some(ua), Some(ub)) => {
                let excl_a = filter_not_in(&self.unknown_surr, &other.unknown_surr);
                let common = filter_in(&self.unknown_surr, &other.unknown_surr);
                let excl_b = filter_not_in(&other.unknown_surr, &self.unknown_surr);
                match solve_linear_constraints((excl_a.len(), common.len(), excl_b.len()), (ua, ub)) {
                    Some((x, y, z)) => {
                        try_mark_cell_set(x, &excl_a, actions);
                        try_mark_cell_set(y, &common, actions);
                        try_mark_cell_set(z, &excl_b, actions);
                    },
                    None => (),
                }
            },
            _ => (),
        }
    }
}

/// Queue the marks that classify a whole partition: clears when it holds no
/// mine, flags when it holds only mines. Reports whether it fired.
fn try_mark_cell_set(mine_count: usize, members: &Vec<usize>, actions: &mut ActionQueue) -> (r:
    bool)
    requires
        old(actions).wf(),
    ensures
        final (actions).wf(),
        r == (mine_count == 0 || mine_count == members@.len()),
        final (actions).pending() == old(actions).pending() + mark_actions(
            mine_count as int,
            members@,
        ),
        final (actions).to_clear() == old(actions).to_clear(),
        final (actions).to_flag() == old(actions).to_flag(),
{
    if mine_count == 0 {
        push_singles(members, SingleCellAction::ServerClear, actions);
        true
    } else if mine_count == members.len() {
        push_singles(members, SingleCellAction::Flag, actions);
        true
    } else {
        assert(final (actions).pending() =~= old(actions).pending() + mark_actions(
            mine_count as int,
            members@,
        ));
        false
    }
}

/// Push one `Single` action per target, all with the same action type, in
/// target order.
fn push_singles(targets: &Vec<usize>, t: SingleCellAction, actions: &mut ActionQueue)
    requires
        old(actions).wf(),
    ensures
        final (actions).wf(),
        final (actions).pending() == old(actions).pending() + singles(targets@, t),
        final (actions).to_clear() == old(actions).to_clear(),
        final (actions).to_flag() == old(actions).to_flag(),
{
    let mut k: usize = 0;
    while k < targets.len()
        invariant
            old(actions).wf(),
            actions.wf(),
            k <= targets@.len(),
            actions.pending() == old(actions).pending() + singles(targets@.take(k as int), t),
            actions.to_clear() == old(actions).to_clear(),
            actions.to_flag() == old(actions).to_flag(),
        decreases targets@.len() - k,
    {
        actions.push(Action::Single { index: targets[k], action_type: t });
        proof {
            assert(singles(targets@.take(k + 1), t) =~= singles(targets@.take(k as int), t).push(
                Action::Single { index: targets@[k as int], action_type: t },
            ));
        }
        k = k + 1;
    }
    proof {
        assert(targets@.take(targets@.len() as int) =~= targets@);
    }
}

/// Push one pairwise-compare action per target, pairing `from` with each.
fn push_pairs(from: usize, targets: &Vec<usize>, actions: &mut ActionQueue)
    requires
        old(actions).wf(),
    ensures
        final (actions).wf(),
        final (actions).pending() == old(actions).pending() + pairs(from, targets@),
        final (actions).to_clear() == old(actions).to_clear(),
        final (actions).to_flag() == old(actions).to_flag(),
{
    let mut k: usize = 0;
    while k < targets.len()
        invariant
            old(actions).wf(),
            actions.wf(),
            k <= targets@.len(),
            actions.pending() == old(actions).pending() + pairs(from, targets@.take(k as int)),
            actions.to_clear() == old(actions).to_clear(),
            actions.to_flag() == old(actions).to_flag(),
        decreases targets@.len() - k,
    {
        actions.push(
            Action::Pair { index1: from, index2: targets[k], action_type: CellPairAction::CompareSurr },
        );
        proof {
            assert(pairs(from, targets@.take(k + 1)) =~= pairs(from, targets@.take(k as int)).push(
                Action::Pair {
                    index1: from,
                    index2: targets@[k as int],
                    action_type: CellPairAction::CompareSurr,
                },
            ));
        }
        k = k + 1;
    }
    proof {
        assert(targets@.take(targets@.len() as int) =~= targets@);
    }
}

/// The members of `a` that do not occur in `b`, in `a`'s order.
fn filter_not_in(a: &Vec<usize>, b: &Vec<usize>) -> (r: Vec<usize>)
    ensures
        r@ == excl_of(a@, b@),
{
    let ghost pred = |x: usize| !b@.contains(x);
    let mut r: Vec<usize> = Vec::new();
    let mut k: usize = 0;
    while k < a.len()
        invariant
            k <= a@.len(),
            pred == (|x: usize| !b@.contains(x)),
            r@ == a@.take(k as int).filter(pred),
        decreases a@.len() - k,
    {
        proof {
            a@.take(k as int).lemma_filter_push(a@[k as int], pred);
            assert(a@.take(k + 1) =~= a@.take(k as int).push(a@[k as int]));
        }
        if !vec_contains(b, a[k]) {
            r.push(a[k]);
        }
        k = k + 1;
    }
    proof {
        assert(a@.take(a@.len() as int) =~= a@);
    }
    r
}

/// The members of `a` that also occur in `b`, in `a`'s order.
fn filter_in(a: &Vec<usize>, b: &Vec<usize>) -> (r: Vec<usize>)
    ensures
        r@ == common_of(a@, b@),
{
    let ghost pred = |x: usize| b@.contains(x);
    let mut r: Vec<usize> = Vec::new();
    let mut k: usize = 0;
    while k < a.len()
        invariant
            k <= a@.len(),
            pred == (|x: usize| b@.contains(x)),
            r@ == a@.take(k as int).filter(pred),
        decreases a@.len() - k,
    {
        proof {
            a@.take(k as int).lemma_filter_push(a@[k as int], pred);
            assert(a@.take(k + 1) =~= a@.take(k as int).push(a@[k as int]));
        }
        if vec_contains(b, a[k]) {
            r.push(a[k]);
        }
        k = k + 1;
    }
    proof {
        assert(a@.take(a@.len() as int) =~= a@);
    }
    r
}

/// A fresh vector with the same contents.
pub fn copy_vec(v: &Vec<usize>) -> (r: Vec<usize>)
    ensures
        r@ == v@,
{
    let mut r: Vec<usize> = Vec::new();
    let mut k: usize = 0;
    while k < v.len()
        invariant
            k <= v@.len(),
            r@ == v@.take(k as int),
        decreases v@.len() - k,
    {
        r.push(v[k]);
        proof {
            assert(v@.take(k + 1) =~= v@.take(k as int).push(v@[k as int]));
        }
        k = k + 1;
    }
    proof {
        assert(v@.take(v@.len() as int) =~= v@);
    }
    r
}

/// Remove the first occurrence of `x` from `v`, shifting the rest left.
fn remove_from(v: &mut Vec<usize>, x: usize)
    ensures
        final (v)@ == old(v)@.remove_value(x),
{
    let mut k: usize = 0;
    while k < v.len()
        invariant
            v@ == old(v)@,
            k <= v@.len(),
            forall|i: int| 0 <= i < k ==> v@[i] != x,
        decreases v@.len() - k,
    {
        if v[k] == x {
            proof {
                old(v)@.index_of_first_ensures(x);
                assert(old(v)@.index_of_first(x) == Some(k as int));
            }
            v.remove(k);
            return;
        }
        k = k + 1;
    }
    proof {
        old(v)@.index_of_first_ensures(x);
        assert(!old(v)@.contains(x));
    }
}

/// What removing a value does to a duplicate-free sequence, stated over
/// membership and length.
pub proof fn lemma_remove_value_props(s: Seq<usize>, x: usize)
    requires
        s.no_duplicates(),
    ensures
        s.remove_value(x).no_duplicates(),
        s.remove_value(x).len() == s.len() - (if s.contains(x) {
            1int
        } else {
            0int
        }),
        forall|y: usize| s.remove_value(x).contains(y) <==> (s.contains(y) && y != x),
        forall|y: usize| #[trigger] s.remove_value(x).contains(y) ==> s.contains(y),
{
    s.index_of_first_ensures(x);
    let r = s.remove_value(x);
    match s.index_of_first(x) {
        Some(i) => {
            assert forall|k1: int, k2: int| 0 <= k1 < k2 < r.len() implies r[k1] != r[k2] by {
                assert(r[k1] == s[if k1 < i {
                    k1
                } else {
                    k1 + 1
                }]);
                assert(r[k2] == s[if k2 < i {
                    k2
                } else {
                    k2 + 1
                }]);
            }
            assert forall|y: usize| r.contains(y) implies (s.contains(y) && y != x) by {
                let k = choose|k: int| 0 <= k < r.len() && r[k] == y;
                let k2 = if k < i {
                    k
                } else {
                    k + 1
                };
                assert(s[k2] == y);
                if y == x {
                    assert(s[k2] == s[i]);
                }
            }
            assert forall|y: usize| s.contains(y) && y != x implies r.contains(y) by {
                let k = choose|k: int| 0 <= k < s.len() && s[k] == y;
                if k < i {
                    assert(r[k] == y);
                } else {
                    assert(k != i);
                    assert(r[k - 1] == y);
                }
            }
        },
        None => {
            assert(!s.contains(x));
        },
    }
}

} // verus!
