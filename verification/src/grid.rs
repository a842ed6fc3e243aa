//! The neighbor model: the Moore neighborhood of a cell, as coordinate tuples
//! and as flat indices, plus the exact-size board volume computations that
//! every constructor relies on.

use vstd::prelude::*;

use crate::coords::{
    coords_of, dims_positive, in_bounds, lemma_coords_of_in_bounds, lemma_volume_positive, volume,
    Coords,
};

verus! {

/// Two coordinate tuples are neighbors when they differ by at most one on
/// every axis and are not the same cell.
pub open spec fn is_surr(a: Seq<usize>, b: Seq<usize>) -> bool {
    &&& a.len() == b.len()
    &&& a != b
    &&& forall|i: int| 0 <= i < a.len() ==> -1 <= #[trigger] b[i] - a[i] <= 1
}

/// Flat index `j` names a neighbor of the cell with coordinates `c`.
pub open spec fn surr_spec(c: Seq<usize>, dims: Seq<usize>, j: int) -> bool {
    &&& 0 <= j < volume(dims)
    &&& is_surr(c, coords_of(j, dims))
}

/// The neighbor relation is symmetric on coordinate tuples.
pub proof fn lemma_is_surr_symmetric(a: Seq<usize>, b: Seq<usize>)
    ensures
        is_surr(a, b) == is_surr(b, a),
{
}

/// Neighbor symmetry over flat indices: for all valid cells `i` and `j`,
/// `j` is a neighbor of `i` exactly when `i` is a neighbor of `j`.
pub proof fn lemma_surr_symmetric(dims: Seq<usize>, i: int, j: int)
    requires
        dims_positive(dims),
        0 <= i < volume(dims),
        0 <= j < volume(dims),
    ensures
        surr_spec(coords_of(i, dims), dims, j) == surr_spec(coords_of(j, dims), dims, i),
{
}

/// Compute the board volume, or `None` when the product of the dimension
/// sizes does not fit in `usize`.
pub fn checked_volume(dims: &Vec<usize>) -> (r: Option<usize>)
    requires
        dims_positive(dims@),
    ensures
        match r {
            Some(v) => v == volume(dims@),
            None => volume(dims@) > usize::MAX,
        },
{
    let mut acc: usize = 1;
    let mut k: usize = 0;
    while k < dims.len()
        invariant
            dims_positive(dims@),
            k <= dims.len(),
            acc == volume(dims@.take(k as int)),
        decreases dims.len() - k,
    {
        proof {
            assert(dims@.take(k + 1).drop_last() =~= dims@.take(k as int));
        }
        match acc.checked_mul(dims[k]) {
            Some(next) => {
                acc = next;
            },
            None => {
                proof {
                    lemma_volume_suffix_grows(dims@, k + 1);
                }
                return None;
            },
        }
        k = k + 1;
    }
    proof {
        assert(dims@.take(k as int) =~= dims@);
    }
    Some(acc)
}

/// Extending a prefix of the axes can only grow the volume.
proof fn lemma_volume_suffix_grows(dims: Seq<usize>, k: int)
    requires
        dims_positive(dims),
        0 <= k <= dims.len(),
    ensures
        volume(dims) >= volume(dims.take(k)),
    decreases dims.len() - k,
{
    if k == dims.len() {
        assert(dims.take(k) =~= dims);
    } else {
        lemma_volume_suffix_grows(dims, k + 1);
        let p = dims.take(k + 1);
        assert(p.drop_last() =~= dims.take(k));
        lemma_volume_positive(dims.take(k));
        assert(volume(dims.take(k)) * p.last() >= volume(dims.take(k))) by (nonlinear_arith)
            requires
                volume(dims.take(k)) >= 1,
                p.last() >= 1,
        ;
    }
}

/// Compute the board volume when it is known to fit in `usize`.
pub fn volume_exec(dims: &Vec<usize>) -> (v: usize)
    requires
        dims_positive(dims@),
        volume(dims@) <= usize::MAX,
    ensures
        v == volume(dims@),
{
    let r = checked_volume(dims);
    match r {
        Some(v) => v,
        None => 0,  // unreachable: the volume fits by precondition
    }
}

/// All neighbor indices of the cell at `coords`, in increasing index order:
/// exactly the valid cells differing by at most one on every axis, the cell
/// itself excluded.
pub fn surr_indices(coords: &Coords, dims: &Vec<usize>) -> (r: Vec<usize>)
    requires
        dims_positive(dims@),
        in_bounds(coords@, dims@),
        volume(dims@) <= usize::MAX,
    ensures
        forall|k1: int, k2: int| 0 <= k1 < k2 < r@.len() ==> r@[k1] < r@[k2],
        forall|k: int| 0 <= k < r@.len() ==> surr_spec(coords@, dims@, r@[k] as int),
        forall|j: int| surr_spec(coords@, dims@, j) ==> r@.contains(j as usize),
{
    let vol = volume_exec(dims);
    let mut r: Vec<usize> = Vec::new();
    let mut j: usize = 0;
    while j < vol
        invariant
            dims_positive(dims@),
            in_bounds(coords@, dims@),
            volume(dims@) <= usize::MAX,
            vol == volume(dims@),
            j <= vol,
            forall|k1: int, k2: int| 0 <= k1 < k2 < r@.len() ==> r@[k1] < r@[k2],
            forall|k: int| 0 <= k < r@.len() ==> r@[k] < j,
            forall|k: int| 0 <= k < r@.len() ==> surr_spec(coords@, dims@, r@[k] as int),
            forall|i: int| 0 <= i < j && surr_spec(coords@, dims@, i) ==> r@.contains(i as usize),
        decreases vol - j,
    {
        proof {
            lemma_coords_of_in_bounds(j as int, dims@);
        }
        let cand = Coords::from_index(j, dims);
        if is_surr_exec(&coords.0, &cand.0) {
            let ghost prev = r@;
            r.push(j);
            proof {
                assert forall|i: int|
                    0 <= i < j + 1 && surr_spec(coords@, dims@, i) implies r@.contains(
                    i as usize,
                ) by {
                    if i < j {
                        assert(prev.contains(i as usize));
                        let k = choose|k: int| 0 <= k < prev.len() && prev[k] == i as usize;
                        assert(r@[k] == i as usize);
                    } else {
                        assert(r@[r@.len() - 1] == j as usize);
                    }
                }
            }
        }
        j = j + 1;
    }
    r
}

/// Whether two equally-sized position vectors name neighboring cells:
/// componentwise distance at most one, and not all components equal.
fn is_surr_exec(a: &Vec<usize>, b: &Vec<usize>) -> (r: bool)
    requires
        a@.len() == b@.len(),
    ensures
        r == is_surr(a@, b@),
{
    let mut any_diff = false;
    let mut k: usize = 0;
    while k < a.len()
        invariant
            a@.len() == b@.len(),
            k <= a@.len(),
            forall|i: int| 0 <= i < k ==> -1 <= #[trigger] b@[i] - a@[i] <= 1,
            any_diff == exists|i: int| 0 <= i < k && a@[i] != b@[i],
        decreases a@.len() - k,
    {
        let av = a[k];
        let bv = b[k];
        let near = if bv <= av {
            av - bv <= 1
        } else {
            bv - av <= 1
        };
        if !near {
            assert(!is_surr(a@, b@));
            return false;
        }
        if av != bv {
            any_diff = true;
        }
        k = k + 1;
    }
    if any_diff {
        assert(a@ != b@) by {
            let i = choose|i: int| 0 <= i < a@.len() && a@[i] != b@[i];
            assert(a@[i] != b@[i]);
        }
        true
    } else {
        assert(a@ =~= b@);
        false
    }
}

} // verus!
