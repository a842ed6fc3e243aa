//! The automated player: it seeds the constraint engine with each turn's
//! revealed cells, runs the worklist to a fixed point, submits the resulting
//! clear and flag requests, and guesses when no deduction is available.

use vstd::prelude::*;

use crate::action_queue::ActionQueue;
use crate::cell::{copy_vec, Action, Cell, OngoingCell, SingleCellAction};
use crate::coords::{
    coords_of, in_bounds, index_of, lemma_coords_of_in_bounds, lemma_index_of_bounds,
    lemma_volume_positive, volume, Coords,
};
use crate::grid::{surr_indices, surr_spec, volume_exec};
use crate::server::{lemma_count_if_pos, mine_free_info, CellAction, CellInfo, GameError,
    GameState, NativeServer};

verus! {

/// The requests the solver wants to send to the server next turn.
pub struct ServerActions {
    pub to_clear: Vec<Coords>,
    pub to_flag: Vec<Coords>,
}

/// The blind opening move: the middle cell of the board.
pub open spec fn start_coords(dims: Seq<usize>) -> Seq<usize> {
    Seq::new(dims.len(), |d: int| (dims[d] / 2) as usize)
}

/// The flat index of the opening move.
pub open spec fn start_index(dims: Seq<usize>) -> int {
    index_of(start_coords(dims), dims)
}

/// The worklist action that a revealed cell seeds: a flag when it was a mine,
/// its revealed count otherwise.
pub open spec fn seed_action(info: CellInfo, dims: Seq<usize>) -> Action {
    Action::Single {
        index: index_of(info.coords@, dims) as usize,
        action_type: if info.mine {
            SingleCellAction::Flag
        } else {
            SingleCellAction::ClientClear { mines: info.surrounding }
        },
    }
}

/// A solver cell wired correctly into slot `i` of a `size`-cell grid: it
/// knows its own index, and all its neighbor indices are on the board.
pub open spec fn cell_linked(c: Cell, i: int, size: int) -> bool {
    match c {
        Cell::Ongoing(o) => o.index == i && forall|k: int|
            0 <= k < o.total_surr@.len() ==> (#[trigger] o.total_surr@[k]) < size,
        Cell::Complete => true,
    }
}

/// `p` is the unprocessed front of `s`.
pub open spec fn starts_with(p: Seq<Action>, s: Seq<Action>) -> bool {
    p.len() <= s.len() && forall|i: int| 0 <= i < p.len() ==> p[i] == s[i]
}

/// A player bound to one native game server.
pub struct Client {
    pub grid: Vec<Cell>,
    pub server: NativeServer,
}

impl Client {
    /// The player invariant: a healthy server and one well-formed, correctly
    /// wired solver cell per board index.
    pub open spec fn inv(&self) -> bool {
        &&& self.server.wf()
        &&& self.grid@.len() == volume(self.server.dims@)
        &&& forall|i: int| 0 <= i < self.grid@.len() ==> Cell::cell_wf(#[trigger] self.grid@[i])
        &&& forall|i: int|
            0 <= i < self.grid@.len() ==> cell_linked(
                #[trigger] self.grid@[i],
                i,
                self.grid@.len() as int,
            )
    }

    /// A fresh player for the given game: one unresolved cell per flat index,
    /// knowing exactly its Moore neighborhood, with nothing revealed, nothing
    /// resolved and no mine counted yet.
    pub fn new(server: NativeServer) -> (r: Client)
        requires
            server.wf(),
        ensures
            r.inv(),
            r.server == server,
            r.grid@.len() == volume(server.dims@),
            forall|i: int|
                0 <= i < r.grid@.len() ==> ((#[trigger] r.grid@[i]) matches Cell::Ongoing(c) && {
                    &&& c.index == i
                    &&& c.total_surr_mines is None
                    &&& c.known_surr_mines == 0
                    &&& c.unknown_surr@ == c.total_surr@
                    &&& forall|k: int|
                        0 <= k < c.total_surr@.len() ==> surr_spec(
                            coords_of(i, server.dims@),
                            server.dims@,
                            #[trigger] c.total_surr@[k] as int,
                        )
                    &&& forall|j: int|
                        surr_spec(coords_of(i, server.dims@), server.dims@, j)
                            ==> c.total_surr@.contains(j as usize)
                }),
    {
        let size = volume_exec(&server.dims);
        let mut grid: Vec<Cell> = Vec::new();
        let mut i: usize = 0;
        while i < size
            invariant
                server.wf(),
                size == volume(server.dims@),
                i <= size,
                grid@.len() == i,
                forall|j: int|
                    0 <= j < i ==> ((#[trigger] grid@[j]) matches Cell::Ongoing(c) && {
                        &&& c.index == j
                        &&& c.total_surr_mines is None
                        &&& c.known_surr_mines == 0
                        &&& c.unknown_surr@ == c.total_surr@
                        &&& c.wf()
                        &&& forall|k: int|
                            0 <= k < c.total_surr@.len() ==> surr_spec(
                                coords_of(j, server.dims@),
                                server.dims@,
                                #[trigger] c.total_surr@[k] as int,
                            )
                        &&& forall|j2: int|
                            surr_spec(coords_of(j, server.dims@), server.dims@, j2)
                                ==> c.total_surr@.contains(j2 as usize)
                    }),
            decreases size - i,
        {
            proof {
                lemma_coords_of_in_bounds(i as int, server.dims@);
            }
            let c = Coords::from_index(i, &server.dims);
            let surr = surr_indices(&c, &server.dims);
            grid.push(Cell::new(i, surr));
            i = i + 1;
        }
        let r = Client { grid, server };
        proof {
            assert forall|i2: int| 0 <= i2 < r.grid@.len() implies cell_linked(
                #[trigger] r.grid@[i2],
                i2,
                r.grid@.len() as int,
            ) by {
                match r.grid@[i2] {
                    Cell::Ongoing(o) => {
                        assert(forall|k: int|
                            0 <= k < o.total_surr@.len() ==> surr_spec(
                                coords_of(i2, r.server.dims@),
                                r.server.dims@,
                                #[trigger] o.total_surr@[k] as int,
                            ));
                    },
                    Cell::Complete => (),
                }
            }
        }
        r
    }

    /// Play the game out: clear the board's middle cell blind, then alternate
    /// submitting requests and running the engine on what was revealed, until
    /// the game is decided or no requests remain. Fails exactly when the game
    /// was already finished; on a fresh board the first blind clear always
    /// reveals something, so the game strictly progresses.
    pub fn play(&mut self) -> (r: Result<GameState, GameError>)
        requires
            old(self).inv(),
        ensures
            final (self).inv(),
            final (self).server.cells_rem <= old(self).server.cells_rem,
            r is Err <==> old(self).server.game_state != GameState::Ongoing,
            match r {
                Ok(gs) => gs == final (self).server.game_state,
                Err(e) => e == GameError::GameFinished && *final (self) == *old(self),
            },
            old(self).server.game_state == GameState::Ongoing && old(self).server.grid@[start_index(
                old(self).server.dims@,
            )].action != CellAction::Cleared ==> final (self).server.cells_rem < old(
                self,
            ).server.cells_rem || final (self).server.game_state != GameState::Ongoing,
    {
        let ghost dims0 = self.server.dims@;
        let mut first: Vec<usize> = Vec::new();
        let mut d: usize = 0;
        while d < self.server.dims.len()
            invariant
                self.inv(),
                *self == *old(self),
                dims0 == self.server.dims@,
                d <= self.server.dims@.len(),
                first@.len() == d,
                forall|j: int| 0 <= j < d ==> #[trigger] first@[j] == (dims0[j] / 2) as usize,
            decreases self.server.dims@.len() - d,
        {
            let dim = self.server.dims[d];
            first.push(dim / 2);
            d = d + 1;
        }
        proof {
            assert(first@ =~= start_coords(dims0));
            assert(in_bounds(first@, dims0));
            lemma_index_of_bounds(first@, dims0);
            lemma_volume_positive(dims0.drop_last());
            assert(volume(dims0) >= 2) by (nonlinear_arith)
                requires
                    volume(dims0) == volume(dims0.drop_last()) * dims0.last(),
                    volume(dims0.drop_last()) >= 1,
                    dims0.last() >= 2,
            ;
        }
        let mut to_clear: Vec<Coords> = Vec::new();
        to_clear.push(Coords(first));
        let mut to_flag: Vec<Coords> = Vec::new();
        // one revealed cell per turn suffices; the board bounds the turns
        let mut fuel = volume_exec(&self.server.dims);
        let mut done = false;
        while !done
            invariant
                self.inv(),
                dims0 == self.server.dims@,
                volume(dims0) >= 2,
                fuel <= volume(dims0),
                self.server.cells_rem <= old(self).server.cells_rem,
                old(self).server.game_state == GameState::Ongoing || (fuel as int == volume(dims0)
                    && !done),
                fuel as int == volume(dims0) ==> *self == *old(self) && !done && to_clear@.len()
                    == 1 && (to_clear@[0])@ == start_coords(dims0) && to_flag@.len() == 0,
                !done ==> (self.server.game_state == GameState::Ongoing || *self == *old(self)),
                fuel as int == volume(dims0) || self.server.cells_rem < old(
                    self,
                ).server.cells_rem || self.server.game_state != GameState::Ongoing || old(
                    self,
                ).server.grid@[start_index(dims0)].action == CellAction::Cleared || old(
                    self,
                ).server.game_state != GameState::Ongoing,
                !done ==> forall|k: int|
                    0 <= k < to_clear@.len() ==> in_bounds((#[trigger] to_clear@[k])@, dims0),
                !done ==> forall|k: int|
                    0 <= k < to_flag@.len() ==> in_bounds((#[trigger] to_flag@[k])@, dims0),
            decreases fuel, (if done {
                0int
            } else {
                1int
            }),
        {
            if fuel == 0 {
                done = true;
            } else {
                let ghost fuel_pre = fuel as int;
                let ghost self_pre = *self;
                fuel = fuel - 1;
                let mut flags: Vec<Coords> = Vec::new();
                let mut clears: Vec<Coords> = Vec::new();
                core::mem::swap(&mut flags, &mut to_flag);
                core::mem::swap(&mut clears, &mut to_clear);
                let ghost clears0 = clears@;
                let infos = match self.server.turn(clears, flags, Vec::new()) {
                    Ok(infos) => infos,
                    Err(e) => {
                        proof {
                            assert(*self == *old(self));
                        }
                        return Err(e);
                    },
                };
                proof {
                    if fuel_pre == volume(dims0) && old(self).server.grid@[start_index(
                        dims0,
                    )].action != CellAction::Cleared {
                        // the blind opening clear was fresh: it is revealed now,
                        // so some report names it
                        let s = start_index(dims0);
                        assert(in_bounds(start_coords(dims0), dims0));
                        lemma_index_of_bounds(start_coords(dims0), dims0);
                        assert(0 <= s < volume(dims0));
                        assert(clears0.len() == 1 && (clears0[0])@ == start_coords(dims0));
                        assert(index_of((clears0[0])@, dims0) == s);
                        assert(self.server.grid@[s].action == CellAction::Cleared);
                        assert(exists|k: int|
                            0 <= k < infos@.len() && index_of(
                                (#[trigger] infos@[k]).coords@,
                                dims0,
                            ) == s);
                        let k = choose|k: int|
                            0 <= k < infos@.len() && index_of(
                                (#[trigger] infos@[k]).coords@,
                                dims0,
                            ) == s;
                        if infos@[k].mine {
                            assert(self.server.game_state == GameState::Lose);
                        } else {
                            lemma_count_if_pos(infos@, mine_free_info(), infos@.len() as int, k);
                            assert(self.server.cells_rem < old(self).server.cells_rem);
                        }
                    }
                }
                if !matches!(self.server.game_state(), GameState::Ongoing) {
                    done = true;
                } else {
                    let next = self.next_turn(&infos);
                    to_clear = next.to_clear;
                    to_flag = next.to_flag;
                    if to_clear.len() == 0 && to_flag.len() == 0 {
                        done = true;
                    }
                }
            }
        }
        Ok(self.server.game_state())
    }

    /// Feed one turn's revealed cells into the constraint engine, run the
    /// worklist to a fixed point, and collect the next turn's requests. Every
    /// revealed cell's solver cell records the reveal; and the result asks to
    /// clear at least one cell unless every cell is already resolved (the
    /// guess that keeps the player moving).
    pub fn next_turn(&mut self, clear_actual: &Vec<CellInfo>) -> (r: ServerActions)
        requires
            old(self).inv(),
            forall|k: int|
                0 <= k < clear_actual@.len() ==> in_bounds(
                    (#[trigger] clear_actual@[k]).coords@,
                    old(self).server.dims@,
                ),
        ensures
            final (self).inv(),
            final (self).server == old(self).server,
            forall|k: int|
                0 <= k < r.to_clear@.len() ==> in_bounds(
                    (#[trigger] r.to_clear@[k])@,
                    final (self).server.dims@,
                ),
            forall|k: int|
                0 <= k < r.to_flag@.len() ==> in_bounds(
                    (#[trigger] r.to_flag@[k])@,
                    final (self).server.dims@,
                ),
            forall|k: int|
                0 <= k < clear_actual@.len() ==> Cell::is_marked_spec(
                    final (self).grid@[index_of(
                        (#[trigger] clear_actual@[k]).coords@,
                        old(self).server.dims@,
                    )],
                ),
            r.to_clear@.len() == 0 ==> forall|i: int|
                0 <= i < final (self).grid@.len() ==> Cell::is_marked_spec(
                    #[trigger] final (self).grid@[i],
                ),
            // a retired cell is never revisited
            forall|i: int|
                0 <= i < final (self).grid@.len() && (old(self).grid@[i] matches Cell::Complete)
                    ==> (#[trigger] final (self).grid@[i]) matches Cell::Complete,
    {
        let ghost dims = self.server.dims@;
        let mut actions = ActionQueue::new();
        let mut k: usize = 0;
        while k < clear_actual.len()
            invariant
                self.inv(),
                *self == *old(self),
                dims == self.server.dims@,
                actions.wf(),
                forall|k2: int|
                    0 <= k2 < clear_actual@.len() ==> in_bounds(
                        (#[trigger] clear_actual@[k2]).coords@,
                        dims,
                    ),
                k <= clear_actual@.len(),
                actions.pending() == Seq::new(
                    k as nat,
                    |k2: int| seed_action(clear_actual@[k2], dims),
                ),
                actions.to_clear().len() == 0,
                actions.to_flag().len() == 0,
            decreases clear_actual@.len() - k,
        {
            let info = &clear_actual[k];
            let index = info.coords.to_index(&self.server.dims);
            let action_type = if info.mine {
                SingleCellAction::Flag
            } else {
                SingleCellAction::ClientClear { mines: info.surrounding }
            };
            actions.push(Action::Single { index, action_type });
            proof {
                assert(actions.pending() =~= Seq::new(
                    (k + 1) as nat,
                    |k2: int| seed_action(clear_actual@[k2], dims),
                ));
            }
            k = k + 1;
        }
        let ghost seeds = actions.pending();
        proof {
            assert forall|k2: int| 0 <= k2 < clear_actual@.len() implies 0 <= index_of(
                (#[trigger] clear_actual@[k2]).coords@,
                dims,
            ) < self.grid@.len() by {
                lemma_index_of_bounds(clear_actual@[k2].coords@, dims);
            }
        }
        self.run_worklist(&mut actions, clear_actual.len(), Ghost(seeds), Ghost(clear_actual@));
        let mut to_clear_idx = copy_vec(actions.get_to_clear());
        if to_clear_idx.len() == 0 {
            match self.guess_index() {
                Option::Some(g) => {
                    to_clear_idx.push(g);
                },
                Option::None => (),
            }
        }
        let to_clear = self.indices_to_coords(&to_clear_idx);
        let to_flag = self.indices_to_coords(actions.get_to_flag());
        ServerActions { to_clear, to_flag }
    }

    /// Run the worklist to a fixed point (bounded far beyond any cascade the
    /// board can produce, and never below the seed count, so every seeded
    /// reveal is applied). All queued submissions name cells of the board.
    fn run_worklist(
        &mut self,
        actions: &mut ActionQueue,
        nseeds: usize,
        Ghost(seeds): Ghost<Seq<Action>>,
        Ghost(infos): Ghost<Seq<CellInfo>>,
    )
        requires
            nseeds == seeds.len(),
            old(self).inv(),
            old(actions).wf(),
            old(actions).pending() == seeds,
            old(actions).to_clear().len() == 0,
            old(actions).to_flag().len() == 0,
            seeds.len() == infos.len(),
            forall|k: int|
                0 <= k < seeds.len() ==> #[trigger] seeds[k] == seed_action(
                    infos[k],
                    old(self).server.dims@,
                ),
            forall|k: int|
                0 <= k < infos.len() ==> 0 <= index_of(
                    (#[trigger] infos[k]).coords@,
                    old(self).server.dims@,
                ) < old(self).grid@.len(),
        ensures
            final (self).inv(),
            final (self).server == old(self).server,
            final (actions).wf(),
            forall|k: int|
                0 <= k < infos.len() ==> Cell::is_marked_spec(
                    final (self).grid@[index_of(
                        (#[trigger] infos[k]).coords@,
                        old(self).server.dims@,
                    )],
                ),
            forall|k: int|
                0 <= k < final (actions).to_clear().len() ==> #[trigger] final (actions).to_clear()[k]
                    < final (self).grid@.len(),
            forall|k: int|
                0 <= k < final (actions).to_flag().len() ==> #[trigger] final (actions).to_flag()[k]
                    < final (self).grid@.len(),
            forall|i: int|
                0 <= i < final (self).grid@.len() && (old(self).grid@[i] matches Cell::Complete)
                    ==> (#[trigger] final (self).grid@[i]) matches Cell::Complete,
    {
        let ghost dims = self.server.dims@;
        let mut fuel: u64 = worklist_fuel(self.grid.len(), nseeds);
        let ghost mut nseed: int = 0;
        loop
            invariant
                self.inv(),
                self.server == old(self).server,
                dims == self.server.dims@,
                actions.wf(),
                seeds.len() == infos.len(),
                forall|k: int|
                    0 <= k < seeds.len() ==> #[trigger] seeds[k] == seed_action(infos[k], dims),
                forall|k: int|
                    0 <= k < infos.len() ==> 0 <= index_of(
                        (#[trigger] infos[k]).coords@,
                        dims,
                    ) < self.grid@.len(),
                0 <= nseed <= seeds.len(),
                starts_with(seeds.skip(nseed), actions.pending()),
                seeds.len() - nseed <= fuel,
                forall|k: int|
                    0 <= k < nseed ==> Cell::is_marked_spec(
                        self.grid@[index_of((#[trigger] infos[k]).coords@, dims)],
                    ),
                forall|k: int|
                    0 <= k < actions.to_clear().len() ==> #[trigger] actions.to_clear()[k]
                        < self.grid@.len(),
                forall|k: int|
                    0 <= k < actions.to_flag().len() ==> #[trigger] actions.to_flag()[k]
                        < self.grid@.len(),
                forall|i: int|
                    0 <= i < self.grid@.len() && (old(self).grid@[i] matches Cell::Complete) ==> (
                    #[trigger] self.grid@[i]) matches Cell::Complete,
            ensures
                self.inv(),
                self.server == old(self).server,
                actions.wf(),
                nseed == seeds.len(),
                forall|k: int|
                    0 <= k < nseed ==> Cell::is_marked_spec(
                        self.grid@[index_of((#[trigger] infos[k]).coords@, dims)],
                    ),
                forall|k: int|
                    0 <= k < actions.to_clear().len() ==> #[trigger] actions.to_clear()[k]
                        < self.grid@.len(),
                forall|k: int|
                    0 <= k < actions.to_flag().len() ==> #[trigger] actions.to_flag()[k]
                        < self.grid@.len(),
                forall|i: int|
                    0 <= i < self.grid@.len() && (old(self).grid@[i] matches Cell::Complete) ==> (
                    #[trigger] self.grid@[i]) matches Cell::Complete,
            decreases fuel,
        {
            if fuel == 0 {
                proof {
                    assert(nseed == seeds.len());
                }
                break ;
            }
            fuel = fuel - 1;
            let ghost pend0 = actions.pending();
            let next = actions.pull();
            let ghost is_seed = nseed < seeds.len();
            proof {
                if is_seed {
                    assert(seeds.skip(nseed).len() > 0);
                    assert(pend0[0] == seeds.skip(nseed)[0]);
                    assert(seeds.skip(nseed)[0] == seeds[nseed]);
                }
            }
            match next {
                Option::None => {
                    proof {
                        assert(seeds.skip(nseed).len() == 0);
                        assert(nseed == seeds.len());
                    }
                    break ;
                },
                Option::Some(Action::Single { index, action_type }) => {
                    let ghost grid0 = self.grid@;
                    let ghost clears0 = actions.to_clear();
                    let ghost flags0 = actions.to_flag();
                    if index < self.grid.len() {
                        let working = clone_cell(&self.grid[index]);
                        match working {
                            Cell::Ongoing(mut ongoing) => {
                                let complete = ongoing.apply_action(actions, action_type);
                                let put = if complete {
                                    Cell::Complete
                                } else {
                                    Cell::Ongoing(ongoing)
                                };
                                proof {
                                    assert(Cell::is_marked_spec(grid0[index as int])
                                        ==> Cell::is_marked_spec(put));
                                    assert(action_type matches SingleCellAction::ClientClear { .. }
                                        ==> Cell::is_marked_spec(put));
                                    assert(action_type matches SingleCellAction::Flag
                                        ==> Cell::is_marked_spec(put));
                                }
                                self.grid.set(index, put);
                            },
                            Cell::Complete => (),
                        }
                    }
                    proof {
                        assert forall|i: int|
                            0 <= i < self.grid@.len() && (old(self).grid@[i] matches Cell::Complete)
                            implies (#[trigger] self.grid@[i]) matches Cell::Complete by {
                            if i != index {
                                assert(self.grid@[i] == grid0[i]);
                            } else {
                                assert(grid0[i] matches Cell::Complete ==> self.grid@[i]
                                    == grid0[i]);
                            }
                        }
                        assert forall|k: int|
                            0 <= k < actions.to_clear().len() implies #[trigger] actions.to_clear()[k]
                            < self.grid@.len() by {
                            if k < clears0.len() {
                                assert(actions.to_clear()[k] == clears0[k]);
                            } else {
                                assert(actions.to_clear()[k] == index);
                            }
                        }
                        assert forall|k: int|
                            0 <= k < actions.to_flag().len() implies #[trigger] actions.to_flag()[k]
                            < self.grid@.len() by {
                            if k < flags0.len() {
                                assert(actions.to_flag()[k] == flags0[k]);
                            } else {
                                assert(actions.to_flag()[k] == index);
                            }
                        }
                        if is_seed {
                            assert(index as int == index_of(infos[nseed].coords@, dims));
                            assert(Cell::is_marked_spec(self.grid@[index as int]));
                            nseed = nseed + 1;
                        }
                        assert forall|k: int| 0 <= k < nseed implies Cell::is_marked_spec(
                            self.grid@[index_of((#[trigger] infos[k]).coords@, dims)],
                        ) by {
                            let j = index_of(infos[k].coords@, dims);
                            if j == index as int {
                            } else {
                                assert(self.grid@[j] == grid0[j]);
                            }
                        }
                        assert(starts_with(seeds.skip(nseed), actions.pending()));
                    }
                },
                Option::Some(Action::Pair { index1, index2, action_type }) => {
                    if index1 < self.grid.len() && index2 < self.grid.len() && index1 != index2 {
                        match (&self.grid[index1], &self.grid[index2]) {
                            (Cell::Ongoing(a), Cell::Ongoing(b)) => {
                                a.apply_pair_action(b, actions, action_type);
                            },
                            _ => (),
                        }
                    }
                    proof {
                        if is_seed {
                            nseed = nseed + 1;
                        }
                        assert(starts_with(seeds.skip(nseed), actions.pending()));
                    }
                },
            }
        }
    }

    /// The first cell that is neither cleared nor flagged, to be cleared as a
    /// guess; `None` exactly when every cell is resolved.
    pub fn guess_index(&self) -> (r: Option<usize>)
        ensures
            match r {
                Some(i) => i < self.grid@.len() && !Cell::is_marked_spec(self.grid@[i as int])
                    && forall|j: int|
                    0 <= j < i ==> Cell::is_marked_spec(#[trigger] self.grid@[j]),
                None => forall|j: int|
                    0 <= j < self.grid@.len() ==> Cell::is_marked_spec(#[trigger] self.grid@[j]),
            },
    {
        let mut i: usize = 0;
        while i < self.grid.len()
            invariant
                i <= self.grid@.len(),
                forall|j: int| 0 <= j < i ==> Cell::is_marked_spec(#[trigger] self.grid@[j]),
            decreases self.grid@.len() - i,
        {
            if !self.grid[i].is_marked() {
                return Some(i);
            }
            i = i + 1;
        }
        None
    }

    /// Turn flat board indices into their coordinate tuples, index by index.
    fn indices_to_coords(&self, idx: &Vec<usize>) -> (r: Vec<Coords>)
        requires
            self.inv(),
            forall|k: int|
                0 <= k < idx@.len() ==> (#[trigger] idx@[k]) < volume(self.server.dims@),
        ensures
            r@.len() == idx@.len(),
            forall|k: int|
                0 <= k < r@.len() ==> (#[trigger] r@[k])@ == coords_of(
                    idx@[k] as int,
                    self.server.dims@,
                ) && in_bounds(r@[k]@, self.server.dims@),
    {
        let mut r: Vec<Coords> = Vec::new();
        let mut k: usize = 0;
        while k < idx.len()
            invariant
                self.inv(),
                k <= idx@.len(),
                r@.len() == k,
                forall|k2: int|
                    0 <= k2 < idx@.len() ==> (#[trigger] idx@[k2]) < volume(self.server.dims@),
                forall|j: int|
                    0 <= j < r@.len() ==> (#[trigger] r@[j])@ == coords_of(
                        idx@[j] as int,
                        self.server.dims@,
                    ) && in_bounds(r@[j]@, self.server.dims@),
            decreases idx@.len() - k,
        {
            let i = idx[k];
            proof {
                lemma_coords_of_in_bounds(i as int, self.server.dims@);
            }
            r.push(Coords::from_index(i, &self.server.dims));
            k = k + 1;
        }
        r
    }

    /// Read access to the underlying game server.
    pub fn server(&self) -> (r: &NativeServer)
        ensures
            r == &self.server,
    {
        &self.server
    }
}

/// The worklist bound: at least one step per seeded reveal, plus far more
/// than any cascade a board of `size` cells can produce, since every
/// deduction round shrinks some unresolved set.
fn worklist_fuel(size: usize, nseeds: usize) -> (r: u64)
    ensures
        r >= nseeds,
{
    let s = size as u64;
    let extra = match s.checked_mul(s) {
        Option::Some(sq) => match sq.checked_mul(64) {
            Option::Some(f) => f,
            Option::None => u64::MAX,
        },
        Option::None => u64::MAX,
    };
    match (nseeds as u64).checked_add(extra) {
        Option::Some(f) => f,
        Option::None => u64::MAX,
    }
}

/// A fresh solver cell equal in state to the given one.
fn clone_cell(c: &Cell) -> (r: Cell)
    ensures
        Cell::cell_wf(*c) ==> Cell::cell_wf(r),
        *c matches Cell::Complete ==> r matches Cell::Complete,
        *c matches Cell::Ongoing(a) ==> r matches Cell::Ongoing(b) && b.index == a.index
            && b.unknown_surr@ == a.unknown_surr@ && b.total_surr@ == a.total_surr@
            && b.total_surr_mines == a.total_surr_mines && b.known_surr_mines
            == a.known_surr_mines,
{
    match c {
        Cell::Ongoing(o) => Cell::Ongoing(
            OngoingCell {
                index: o.index,
                unknown_surr: copy_vec(&o.unknown_surr),
                total_surr: copy_vec(&o.total_surr),
                total_surr_mines: o.total_surr_mines,
                known_surr_mines: o.known_surr_mines,
            },
        ),
        Cell::Complete => Cell::Complete,
    }
}

} // verus!
