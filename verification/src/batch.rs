//! The batch runner: it enumerates every (dimension tuple, mine count)
//! specification from the configured ranges, discards the ones with at least
//! as many mines as cells, derives one seed per game from a single metaseed,
//! plays each surviving specification a fixed number of times, and aggregates
//! wins per specification. The whole batch is reproducible from the metaseed.

use vstd::prelude::*;

use crate::cell::copy_vec;
use crate::client::Client;
use crate::coords::{coords_of, dims_positive, lemma_coords_of_in_bounds, volume, Coords};
use crate::grid::checked_volume;
use crate::rng::SeedStream;
use crate::server::{valid_spec, GameError, GameSpec, GameState, NativeServer};

verus! {

/// A batch configuration: per-axis candidate sizes, candidate mine counts,
/// repetitions per specification, the autoclear toggle, and the metaseed that
/// determines every game seed.
#[derive(Debug)]
pub struct GameBatch {
    pub count_per_spec: usize,
    pub dims_range: Vec<Vec<usize>>,
    pub mines_range: Vec<usize>,
    pub autoclear: bool,
    pub metaseed: u32,
}

/// The aggregate outcome of one surviving specification.
#[derive(Debug)]
pub struct SpecResult {
    pub dims: Vec<usize>,
    pub mines: usize,
    pub played: usize,
    pub wins: usize,
}

/// The per-axis candidate lists as mathematical sequences.
pub open spec fn range_views(v: Vec<Vec<usize>>) -> Seq<Seq<usize>> {
    Seq::new(v@.len() as nat, |i: int| v@[i]@)
}

/// How many candidate values each axis has.
pub open spec fn lens_of(lists: Seq<Seq<usize>>) -> Seq<usize> {
    Seq::new(lists.len(), |d: int| lists[d].len() as usize)
}

/// The `t`-th dimension tuple of the Cartesian product of the axis ranges,
/// in mixed-radix order.
pub open spec fn tuple_at(lists: Seq<Seq<usize>>, t: int) -> Seq<usize> {
    Seq::new(lists.len(), |d: int| lists[d][coords_of(t, lens_of(lists))[d] as int])
}

/// Whether the `p`-th (tuple, mine count) pair survives the filter: strictly
/// fewer mines than cells, on a board the machine can index.
pub open spec fn pair_survives(
    lists: Seq<Seq<usize>>,
    mines_range: Seq<usize>,
    nm: int,
    p: int,
) -> bool {
    let dims = tuple_at(lists, p / nm);
    let m = mines_range[p % nm];
    volume(dims) <= usize::MAX && (m as int) < volume(dims)
}

/// How many of the first `p` pairs survive the filter.
pub open spec fn surviving_count(
    lists: Seq<Seq<usize>>,
    mines_range: Seq<usize>,
    nm: int,
    p: int,
) -> int
    decreases p,
{
    if p <= 0 {
        0
    } else {
        surviving_count(lists, mines_range, nm, p - 1) + if pair_survives(
            lists,
            mines_range,
            nm,
            p - 1,
        ) {
            1int
        } else {
            0int
        }
    }
}

/// A board with an empty axis has no cells.
proof fn lemma_volume_zero(dims: Seq<usize>, j: int)
    requires
        0 <= j < dims.len(),
        dims[j] == 0,
    ensures
        volume(dims) == 0,
    decreases dims.len(),
{
    if j == dims.len() - 1 {
        assert(volume(dims) == volume(dims.drop_last()) * 0) by (nonlinear_arith)
            requires
                dims.len() >= 1,
                dims.last() == 0,
                volume(dims) == volume(dims.drop_last()) * dims.last(),
        ;
    } else {
        lemma_volume_zero(dims.drop_last(), j);
    }
}

/// When every axis from `k` on has at least one cell, extending a nonnegative
/// prefix volume cannot shrink it.
proof fn lemma_volume_extend_ge(dims: Seq<usize>, k: int)
    requires
        0 <= k <= dims.len(),
        volume(dims.take(k)) >= 0,
        forall|j: int| k <= j < dims.len() ==> dims[j] >= 1,
    ensures
        volume(dims) >= volume(dims.take(k)),
    decreases dims.len() - k,
{
    if k == dims.len() {
        assert(dims.take(k) =~= dims);
    } else {
        assert(dims.take(k + 1).drop_last() =~= dims.take(k));
        assert(volume(dims.take(k + 1)) >= volume(dims.take(k)) && volume(dims.take(k + 1)) >= 0)
            by (nonlinear_arith)
            requires
                volume(dims.take(k + 1)) == volume(dims.take(k)) * dims.take(k + 1).last(),
                dims.take(k + 1).last() >= 1,
                volume(dims.take(k)) >= 0,
        ;
        lemma_volume_extend_ge(dims, k + 1);
    }
}

/// The product of the entries; `None` only for a board no `usize` can index
/// or one with no cells at all.
fn product_checked(dims: &Vec<usize>) -> (r: Option<usize>)
    ensures
        match r {
            Some(v) => v == volume(dims@),
            None => volume(dims@) > usize::MAX || volume(dims@) == 0,
        },
{
    let mut acc: usize = 1;
    let mut k: usize = 0;
    while k < dims.len()
        invariant
            k <= dims@.len(),
            acc == volume(dims@.take(k as int)),
        decreases dims@.len() - k,
    {
        proof {
            assert(dims@.take(k + 1).drop_last() =~= dims@.take(k as int));
        }
        match acc.checked_mul(dims[k]) {
            Some(next) => {
                acc = next;
            },
            None => {
                proof {
                    assert(volume(dims@.take(k + 1)) > usize::MAX);
                    if exists|j: int| k + 1 <= j < dims@.len() && dims@[j] == 0 {
                        let j = choose|j: int| k + 1 <= j < dims@.len() && dims@[j] == 0;
                        lemma_volume_zero(dims@, j);
                    } else {
                        assert(forall|j: int| k + 1 <= j < dims@.len() ==> dims@[j] >= 1);
                        lemma_volume_extend_ge(dims@, k + 1);
                    }
                }
                return None;
            },
        }
        k = k + 1;
    }
    proof {
        assert(dims@.take(dims@.len() as int) =~= dims@);
    }
    Some(acc)
}

/// Whether a whole batch can run: the enumeration fits the machine, every
/// surviving specification is one the server accepts, and the total game
/// count fits.
pub open spec fn batch_ok(lists: Seq<Seq<usize>>, minesr: Seq<usize>, cps: usize) -> bool {
    let nm = minesr.len() as int;
    let total = volume(lens_of(lists)) * nm;
    &&& volume(lens_of(lists)) <= usize::MAX
    &&& total <= usize::MAX
    &&& cps > 0 ==> forall|p: int|
        0 <= p < total && #[trigger] pair_survives(lists, minesr, nm, p) ==> valid_spec(
            tuple_at(lists, p / nm),
            minesr[p % nm],
        )
    &&& surviving_count(lists, minesr, nm, total) * (cps as int) <= usize::MAX
}

impl GameBatch {
    /// Run the whole batch: it succeeds exactly when the batch is runnable,
    /// with one result row per surviving specification, in enumeration order,
    /// each row naming its specification and played exactly `count_per_spec`
    /// times against a fresh seeded native server.
    pub fn run(self) -> (r: Result<Vec<SpecResult>, GameError>)
        ensures
            r is Ok <==> batch_ok(range_views(self.dims_range), self.mines_range@, self.count_per_spec),
            match r {
                Ok(results) => {
                    let lists = range_views(self.dims_range);
                    let nm = self.mines_range@.len() as int;
                    let total = volume(lens_of(lists)) * nm;
                    &&& results@.len() == (if self.count_per_spec == 0 {
                        0int
                    } else {
                        surviving_count(lists, self.mines_range@, nm, total)
                    })
                    &&& forall|k: int|
                        0 <= k < results@.len() ==> (#[trigger] results@[k]).played
                            == self.count_per_spec && results@[k].wins <= results@[k].played
                    &&& self.count_per_spec > 0 ==> forall|p: int|
                        0 <= p < total && #[trigger] pair_survives(lists, self.mines_range@, nm, p)
                            ==> {
                            let k = surviving_count(lists, self.mines_range@, nm, p);
                            &&& 0 <= k < results@.len()
                            &&& results@[k].dims@ == tuple_at(lists, p / nm)
                            &&& results@[k].mines == self.mines_range@[p % nm]
                        }
                },
                Err(e) => e == GameError::InvalidSpec,
            },
    {
        let ghost lists = range_views(self.dims_range);
        let ghost minesr = self.mines_range@;
        let nm = self.mines_range.len();
        let cps = self.count_per_spec;
        let mut lens_vec: Vec<usize> = Vec::new();
        let mut d: usize = 0;
        while d < self.dims_range.len()
            invariant
                lists == range_views(self.dims_range),
                d <= self.dims_range@.len(),
                lens_vec@.len() == d,
                forall|j: int| 0 <= j < d ==> #[trigger] lens_vec@[j] == lists[j].len(),
                forall|j: int| 0 <= j < d ==> #[trigger] lens_vec@[j] >= 1,
            decreases self.dims_range@.len() - d,
        {
            let axis_len = self.dims_range[d].len();
            if axis_len == 0 {
                proof {
                    assert(lens_of(lists)[d as int] == 0);
                    lemma_volume_zero(lens_of(lists), d as int);
                    assert(volume(lens_of(lists)) * (minesr.len() as int) == 0) by (
                    nonlinear_arith)
                        requires
                            volume(lens_of(lists)) == 0,
                    ;
                    assert(surviving_count(
                        lists,
                        minesr,
                        minesr.len() as int,
                        volume(lens_of(lists)) * (minesr.len() as int),
                    ) == 0);
                    assert(surviving_count(
                        lists,
                        minesr,
                        minesr.len() as int,
                        volume(lens_of(lists)) * (minesr.len() as int),
                    ) * (cps as int) == 0) by (nonlinear_arith)
                        requires
                            surviving_count(
                                lists,
                                minesr,
                                minesr.len() as int,
                                volume(lens_of(lists)) * (minesr.len() as int),
                            ) == 0,
                    ;
                    assert(batch_ok(lists, minesr, cps));
                }
                return Ok(Vec::new());
            }
            lens_vec.push(axis_len);
            d = d + 1;
        }
        proof {
            assert(lens_vec@ =~= lens_of(lists));
        }
        let nd = match checked_volume(&lens_vec) {
            Some(v) => v,
            None => {
                proof {
                    assert(!batch_ok(lists, minesr, cps));
                }
                return Err(GameError::InvalidSpec);
            },
        };
        let total = match nd.checked_mul(nm) {
            Some(v) => v,
            None => {
                proof {
                    assert((nd as int) * (nm as int) > usize::MAX);
                    assert(!batch_ok(lists, minesr, cps));
                }
                return Err(GameError::InvalidSpec);
            },
        };
        if cps == 0 {
            // no games per specification: nothing is played and nothing reported
            proof {
                lemma_surviving_nonneg(lists, minesr, nm as int, (nd * nm) as int);
                assert(surviving_count(lists, minesr, nm as int, (nd * nm) as int) * (cps as int)
                    == 0) by (nonlinear_arith)
                    requires
                        cps == 0,
                        surviving_count(lists, minesr, nm as int, (nd * nm) as int) >= 0,
                ;
                assert(batch_ok(lists, minesr, cps));
            }
            return Ok(Vec::new());
        }
        let mut stream = SeedStream::new(self.metaseed);
        let mut games: usize = 0;
        let mut results: Vec<SpecResult> = Vec::new();
        let mut p: usize = 0;
        proof {
            assert(surviving_count(lists, minesr, nm as int, 0) == 0);
            assert(surviving_count(lists, minesr, nm as int, 0) * (cps as int) == 0) by (
            nonlinear_arith)
                requires
                    surviving_count(lists, minesr, nm as int, 0) == 0,
            ;
        }
        while p < total
            invariant
                lists == range_views(self.dims_range),
                minesr == self.mines_range@,
                cps == self.count_per_spec,
                cps >= 1,
                dims_positive(lens_of(lists)),
                lens_vec@ == lens_of(lists),
                nm == minesr.len(),
                nd == volume(lens_of(lists)),
                total == nd * nm,
                p <= total,
                stream.seed() == self.metaseed,
                stream.drawn() == games,
                results@.len() == surviving_count(lists, minesr, nm as int, p as int),
                games == surviving_count(lists, minesr, nm as int, p as int) * (cps as int),
                forall|k: int|
                    0 <= k < results@.len() ==> (#[trigger] results@[k]).played == cps
                        && results@[k].wins <= results@[k].played,
                forall|p2: int|
                    0 <= p2 < p && #[trigger] pair_survives(lists, minesr, nm as int, p2)
                        ==> valid_spec(
                        tuple_at(lists, p2 / (nm as int)),
                        minesr[p2 % (nm as int)],
                    ),
                forall|p2: int|
                    0 <= p2 < p && #[trigger] pair_survives(lists, minesr, nm as int, p2) ==> {
                        let k = surviving_count(lists, minesr, nm as int, p2);
                        &&& 0 <= k < results@.len()
                        &&& results@[k].dims@ == tuple_at(lists, p2 / (nm as int))
                        &&& results@[k].mines == minesr[p2 % (nm as int)]
                    },
            decreases total - p,
        {
            let t = p / nm;
            let m_idx = p % nm;
            proof {
                assert(t < nd) by (nonlinear_arith)
                    requires
                        nm >= 1,
                        p < nd * nm,
                        t == p / nm,
                ;
                assert(m_idx < nm) by (nonlinear_arith)
                    requires
                        nm >= 1,
                        m_idx == p % nm,
                ;
                lemma_coords_of_in_bounds(t as int, lens_of(lists));
            }
            let digits = Coords::from_index(t, &lens_vec);
            let mut dims: Vec<usize> = Vec::new();
            let mut d2: usize = 0;
            while d2 < self.dims_range.len()
                invariant
                    lists == range_views(self.dims_range),
                    lens_vec@ == lens_of(lists),
                    digits@ == coords_of(t as int, lens_of(lists)),
                    digits@.len() == lens_of(lists).len(),
                    forall|j: int|
                        0 <= j < lens_of(lists).len() ==> #[trigger] digits@[j] < lens_of(
                            lists,
                        )[j],
                    d2 <= self.dims_range@.len(),
                    dims@.len() == d2,
                    forall|j: int| 0 <= j < d2 ==> #[trigger] dims@[j] == tuple_at(lists, t as int)[j],
                decreases self.dims_range@.len() - d2,
            {
                let digit = digits.0[d2];
                dims.push(self.dims_range[d2][digit]);
                d2 = d2 + 1;
            }
            proof {
                assert(dims@ =~= tuple_at(lists, t as int));
            }
            let mines = self.mines_range[m_idx];
            let surv = match product_checked(&dims) {
                Some(v) => mines < v,
                None => false,
            };
            let ghost count_pre = surviving_count(lists, minesr, nm as int, p as int);
            proof {
                assert(surv == pair_survives(lists, minesr, nm as int, p as int));
            }
            if surv {
                let row = results.len();
                results.push(SpecResult { dims: copy_vec(&dims), mines, played: 0, wins: 0 });
                proof {
                    assert forall|p2: int|
                        0 <= p2 < p && #[trigger] pair_survives(lists, minesr, nm as int, p2)
                        implies {
                        let k = surviving_count(lists, minesr, nm as int, p2);
                        &&& 0 <= k < results@.len()
                        &&& results@[k].dims@ == tuple_at(lists, p2 / (nm as int))
                        &&& results@[k].mines == minesr[p2 % (nm as int)]
                    } by {
                        lemma_surviving_monotone(lists, minesr, nm as int, p2 + 1, p as int);
                        lemma_surviving_nonneg(lists, minesr, nm as int, p2);
                        let k = surviving_count(lists, minesr, nm as int, p2);
                        assert(k < row + 1);
                    }
                }
                let mut g: usize = 0;
                while g < cps
                    invariant
                        lists == range_views(self.dims_range),
                        minesr == self.mines_range@,
                        cps == self.count_per_spec,
                        cps >= 1,
                        nm == minesr.len(),
                        nm >= 1,
                        nd == volume(lens_of(lists)),
                        total == nd * nm,
                        p < total,
                        t == p / nm,
                        m_idx == p % nm,
                        dims@ == tuple_at(lists, t as int),
                        mines == minesr[m_idx as int],
                        pair_survives(lists, minesr, nm as int, p as int),
                        g > 0 ==> valid_spec(
                            tuple_at(lists, (p as int) / (nm as int)),
                            minesr[(p as int) % (nm as int)],
                        ),
                        stream.seed() == self.metaseed,
                        stream.drawn() == games,
                        g <= cps,
                        games == count_pre * (cps as int) + g,
                        count_pre == surviving_count(lists, minesr, nm as int, p as int),
                        results@.len() == row + 1,
                        row == count_pre,
                        results@[row as int].played == g,
                        results@[row as int].wins <= g,
                        results@[row as int].dims@ == dims@,
                        results@[row as int].mines == mines,
                        forall|k: int|
                            0 <= k < row ==> (#[trigger] results@[k]).played == cps
                                && results@[k].wins <= results@[k].played,
                        forall|p2: int|
                            0 <= p2 < p && #[trigger] pair_survives(lists, minesr, nm as int, p2)
                                ==> valid_spec(
                                tuple_at(lists, p2 / (nm as int)),
                                minesr[p2 % (nm as int)],
                            ),
                        forall|p2: int|
                            0 <= p2 < p && #[trigger] pair_survives(lists, minesr, nm as int, p2)
                                ==> {
                                let k = surviving_count(lists, minesr, nm as int, p2);
                                &&& 0 <= k < results@.len()
                                &&& results@[k].dims@ == tuple_at(lists, p2 / (nm as int))
                                &&& results@[k].mines == minesr[p2 % (nm as int)]
                            },
                    decreases cps - g,
                {
                    if games == usize::MAX {
                        proof {
                            lemma_surviving_nonneg(lists, minesr, nm as int, p as int);
                            lemma_surviving_monotone(lists, minesr, nm as int, p + 1, total as int);
                            assert(surviving_count(lists, minesr, nm as int, (p + 1) as int)
                                == count_pre + 1);
                            assert(surviving_count(lists, minesr, nm as int, total as int) * (
                            cps as int) > usize::MAX) by (nonlinear_arith)
                                requires
                                    surviving_count(lists, minesr, nm as int, total as int)
                                        >= count_pre + 1,
                                    count_pre >= 0,
                                    0 <= (g as int) < (cps as int),
                                    count_pre * (cps as int) + g == usize::MAX as int,
                            ;
                            assert(total as int == volume(lens_of(lists)) * (minesr.len() as int));
                            assert(!batch_ok(lists, minesr, cps));
                        }
                        return Err(GameError::InvalidSpec);
                    }
                    let seed = stream.next_u32();
                    games = games + 1;
                    let spec = GameSpec {
                        dims: copy_vec(&dims),
                        mines,
                        seed,
                        autoclear: self.autoclear,
                    };
                    let server = match NativeServer::new(spec, false) {
                        Ok(s) => s,
                        Err(_) => {
                            proof {
                                assert(!valid_spec(
                                    tuple_at(lists, (p as int) / (nm as int)),
                                    minesr[(p as int) % (nm as int)],
                                ));
                                assert(total as int == volume(lens_of(lists)) * (
                                minesr.len() as int));
                                assert(!batch_ok(lists, minesr, cps));
                            }
                            return Err(GameError::InvalidSpec);
                        },
                    };
                    proof {
                        assert(valid_spec(
                            tuple_at(lists, (p as int) / (nm as int)),
                            minesr[(p as int) % (nm as int)],
                        ));
                    }
                    let mut player = Client::new(server);
                    let outcome = match player.play() {
                        Ok(gs) => gs,
                        Err(e) => {
                            proof {
                                // a fresh server is ongoing, so play cannot fail
                                assert(false);
                            }
                            return Err(GameError::InvalidSpec);
                        },
                    };
                    let ghost results_pre = results@;
                    results[row].played = results[row].played + 1;
                    if matches!(outcome, GameState::Win) {
                        results[row].wins = results[row].wins + 1;
                    }
                    proof {
                        assert(results@.len() == results_pre.len());
                        assert(results@[row as int].dims@ == results_pre[row as int].dims@);
                        assert(results@[row as int].mines == results_pre[row as int].mines);
                        assert(forall|k: int|
                            0 <= k < row ==> #[trigger] results@[k] == results_pre[k]);
                        assert forall|p2: int|
                            0 <= p2 < p && #[trigger] pair_survives(lists, minesr, nm as int, p2)
                            implies {
                            let k = surviving_count(lists, minesr, nm as int, p2);
                            &&& 0 <= k < results@.len()
                            &&& results@[k].dims@ == tuple_at(lists, p2 / (nm as int))
                            &&& results@[k].mines == minesr[p2 % (nm as int)]
                        } by {
                            let k = surviving_count(lists, minesr, nm as int, p2);
                            if k < row {
                                assert(results@[k] == results_pre[k]);
                            }
                        }
                    }
                    g = g + 1;
                }
                proof {
                    assert(surviving_count(lists, minesr, nm as int, (p + 1) as int) == count_pre
                        + 1);
                    assert((count_pre + 1) * (cps as int) == count_pre * (cps as int) + (
                    cps as int)) by (nonlinear_arith);
                    assert forall|p2: int|
                        0 <= p2 < p + 1 && #[trigger] pair_survives(lists, minesr, nm as int, p2)
                        implies {
                        let k = surviving_count(lists, minesr, nm as int, p2);
                        &&& 0 <= k < results@.len()
                        &&& results@[k].dims@ == tuple_at(lists, p2 / (nm as int))
                        &&& results@[k].mines == minesr[p2 % (nm as int)]
                    } by {
                        if p2 == p {
                            assert(surviving_count(lists, minesr, nm as int, p2) == row);
                        }
                    }
                }
            } else {
                proof {
                    assert(surviving_count(lists, minesr, nm as int, (p + 1) as int) == count_pre);
                }
            }
            p = p + 1;
        }
        proof {
            assert(total as int == volume(lens_of(lists)) * (minesr.len() as int));
            assert(batch_ok(lists, minesr, cps));
            assert(batch_ok(range_views(self.dims_range), self.mines_range@, self.count_per_spec));
            assert(results@.len() == surviving_count(
                lists,
                self.mines_range@,
                self.mines_range@.len() as int,
                volume(lens_of(lists)) * (self.mines_range@.len() as int),
            ));
            assert(forall|k: int|
                0 <= k < results@.len() ==> (#[trigger] results@[k]).played == self.count_per_spec
                    && results@[k].wins <= results@[k].played);
        }
        Ok(results)
    }
}

/// The count of surviving pairs is never negative.
proof fn lemma_surviving_nonneg(lists: Seq<Seq<usize>>, mines_range: Seq<usize>, nm: int, p: int)
    ensures
        surviving_count(lists, mines_range, nm, p) >= 0,
    decreases p,
{
    if p > 0 {
        lemma_surviving_nonneg(lists, mines_range, nm, p - 1);
    }
}

/// The count of surviving pairs grows with the prefix it counts.
proof fn lemma_surviving_monotone(
    lists: Seq<Seq<usize>>,
    mines_range: Seq<usize>,
    nm: int,
    p1: int,
    p2: int,
)
    requires
        p1 <= p2,
    ensures
        surviving_count(lists, mines_range, nm, p1) <= surviving_count(lists, mines_range, nm, p2),
    decreases p2 - p1,
{
    if p1 < p2 {
        lemma_surviving_monotone(lists, mines_range, nm, p1, p2 - 1);
    }
}

} // verus!
