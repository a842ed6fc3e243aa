//! The coordinate model: a cell of an N-dimensional board is named either by
//! an ordered tuple of per-axis positions or by a flat array index, related by
//! mixed-radix positional encoding (most-significant axis first).

use vstd::prelude::*;

verus! {

/// An ordered tuple of per-axis positions, one entry per board dimension.
#[derive(Clone, Debug)]
pub struct Coords(pub Vec<usize>);

impl View for Coords {
    type V = Seq<usize>;

    open spec fn view(&self) -> Seq<usize> {
        self.0@
    }
}

/// Every axis has at least one cell, so that mixed-radix encoding is defined.
pub open spec fn dims_positive(dims: Seq<usize>) -> bool {
    forall|i: int| 0 <= i < dims.len() ==> dims[i] >= 1
}

/// The number of cells of a board with the given dimension sizes.
pub open spec fn volume(dims: Seq<usize>) -> int
    decreases dims.len(),
{
    if dims.len() == 0 {
        1
    } else {
        volume(dims.drop_last()) * dims.last()
    }
}

/// `coords` names a cell of a board with the given dimension sizes: one
/// position per axis, each strictly below its axis size.
pub open spec fn in_bounds(coords: Seq<usize>, dims: Seq<usize>) -> bool {
    &&& coords.len() == dims.len()
    &&& forall|i: int| 0 <= i < coords.len() ==> coords[i] < dims[i]
}

/// The flat index of a coordinate tuple: mixed-radix encoding, folding
/// most-significant axis first (`acc * dim + coord`).
pub open spec fn index_of(coords: Seq<usize>, dims: Seq<usize>) -> int
    decreases coords.len(),
{
    if coords.len() == 0 {
        0
    } else {
        index_of(coords.drop_last(), dims.drop_last()) * dims.last() + coords.last()
    }
}

/// The coordinate tuple of a flat index: extracts the least-significant axis
/// first (`index % dim`), then recurses on the quotient.
pub open spec fn coords_of(index: int, dims: Seq<usize>) -> Seq<usize>
    decreases dims.len(),
{
    if dims.len() == 0 {
        Seq::empty()
    } else {
        coords_of(index / dims.last() as int, dims.drop_last()).push(
            (index % dims.last() as int) as usize,
        )
    }
}

/// A valid coordinate tuple encodes to an index within the board's volume.
pub proof fn lemma_index_of_bounds(coords: Seq<usize>, dims: Seq<usize>)
    requires
        dims_positive(dims),
        in_bounds(coords, dims),
    ensures
        0 <= index_of(coords, dims) < volume(dims),
    decreases coords.len(),
{
    if coords.len() == 0 {
    } else {
        let c = coords.drop_last();
        let d = dims.drop_last();
        assert(in_bounds(c, d));
        lemma_index_of_bounds(c, d);
        assert(index_of(c, d) * dims.last() + coords.last() < volume(d) * dims.last()) by (
        nonlinear_arith)
            requires
                index_of(c, d) < volume(d),
                coords.last() < dims.last(),
        ;
        assert(index_of(c, d) * dims.last() >= 0) by (nonlinear_arith)
            requires
                index_of(c, d) >= 0,
                dims.last() >= 1,
        ;
    }
}

/// Decoding a flat index yields a valid coordinate tuple.
pub proof fn lemma_coords_of_in_bounds(index: int, dims: Seq<usize>)
    requires
        dims_positive(dims),
        0 <= index < volume(dims),
    ensures
        in_bounds(coords_of(index, dims), dims),
    decreases dims.len(),
{
    if dims.len() == 0 {
    } else {
        let d = dims.last() as int;
        let q = index / d;
        assert(0 <= q < volume(dims.drop_last())) by (nonlinear_arith)
            requires
                d >= 1,
                0 <= index < volume(dims.drop_last()) * d,
                q == index / d,
        ;
        lemma_coords_of_in_bounds(q, dims.drop_last());
        assert(0 <= index % d < d) by (nonlinear_arith)
            requires
                d >= 1,
                index >= 0,
        ;
    }
}

/// Round-trip: decoding a valid flat index and re-encoding it gives the index
/// back, for every board and every index below its volume.
pub proof fn lemma_round_trip(index: int, dims: Seq<usize>)
    requires
        dims_positive(dims),
        0 <= index < volume(dims),
    ensures
        index_of(coords_of(index, dims), dims) == index,
    decreases dims.len(),
{
    if dims.len() == 0 {
    } else {
        let d = dims.last() as int;
        let q = index / d;
        let r = index % d;
        assert(0 <= q < volume(dims.drop_last()) && 0 <= r < d && q * d + r == index) by (
        nonlinear_arith)
            requires
                d >= 1,
                0 <= index < volume(dims.drop_last()) * d,
                q == index / d,
                r == index % d,
        ;
        lemma_round_trip(q, dims.drop_last());
        let c = coords_of(index, dims);
        assert(c.drop_last() =~= coords_of(q, dims.drop_last()));
        assert(index_of(c, dims) == index_of(c.drop_last(), dims.drop_last()) * d + r);
    }
}

/// The other direction of the round trip: encoding a valid coordinate tuple
/// and decoding the index gives the tuple back.
pub proof fn lemma_round_trip_coords(coords: Seq<usize>, dims: Seq<usize>)
    requires
        dims_positive(dims),
        in_bounds(coords, dims),
    ensures
        coords_of(index_of(coords, dims), dims) =~= coords,
    decreases coords.len(),
{
    if coords.len() == 0 {
    } else {
        let c = coords.drop_last();
        let d = dims.drop_last();
        let last = dims.last() as int;
        assert(in_bounds(c, d));
        lemma_index_of_bounds(c, d);
        let i = index_of(coords, dims);
        assert(i / last == index_of(c, d) && i % last == coords.last()) by (nonlinear_arith)
            requires
                last >= 1,
                0 <= coords.last() < last,
                index_of(c, d) >= 0,
                i == index_of(c, d) * last + coords.last(),
        ;
        lemma_round_trip_coords(c, d);
    }
}

impl Coords {
    /// Decode a flat index into a coordinate tuple, least-significant axis
    /// extracted first.
    pub fn from_index(index: usize, dims: &Vec<usize>) -> (r: Coords)
        requires
            dims_positive(dims@),
        ensures
            r@ == coords_of(index as int, dims@),
    {
        let mut coords: Vec<usize> = Vec::new();
        let mut k: usize = 0;
        while k < dims.len()
            invariant
                dims_positive(dims@),
                k <= dims.len(),
                coords.len() == k,
            decreases dims.len() - k,
        {
            coords.push(0);
            k = k + 1;
        }
        let mut idx: usize = index;
        proof {
            assert(dims@.take(dims.len() as int) =~= dims@);
            assert(coords_of(index as int, dims@) + coords@.skip(dims.len() as int)
                =~= coords_of(index as int, dims@));
        }
        while k > 0
            invariant
                dims_positive(dims@),
                k <= dims.len(),
                coords.len() == dims.len(),
                coords_of(index as int, dims@) =~= coords_of(
                    idx as int,
                    dims@.take(k as int),
                ) + coords@.skip(k as int),
            decreases k,
        {
            let d = dims[k - 1];
            let c = idx % d;
            let ghost prev = coords@;
            let ghost previdx = idx as int;
            coords[k - 1] = c;
            idx = idx / d;
            k = k - 1;
            proof {
                assert(dims@.take(k + 1).drop_last() =~= dims@.take(k as int));
                assert(coords_of(previdx, dims@.take(k + 1)) =~= coords_of(
                    idx as int,
                    dims@.take(k as int),
                ).push(c));
                assert(coords_of(idx as int, dims@.take(k as int)).push(c) + prev.skip(k + 1)
                    =~= coords_of(idx as int, dims@.take(k as int)) + coords@.skip(k as int));
            }
        }
        proof {
            assert(coords_of(idx as int, dims@.take(0)) =~= Seq::<usize>::empty());
            assert(coords@.skip(0) =~= coords@);
        }
        Coords(coords)
    }

    /// Encode this coordinate tuple into its flat index, folding the
    /// most-significant axis first.
    pub fn to_index(&self, dims: &Vec<usize>) -> (r: usize)
        requires
            dims_positive(dims@),
            in_bounds(self@, dims@),
            volume(dims@) <= usize::MAX,
        ensures
            r == index_of(self@, dims@),
            r < volume(dims@),
    {
        proof {
            lemma_index_of_bounds(self@, dims@);
        }
        let mut acc: usize = 0;
        let mut k: usize = 0;
        while k < dims.len()
            invariant
                dims_positive(dims@),
                in_bounds(self@, dims@),
                volume(dims@) <= usize::MAX,
                k <= dims.len(),
                acc == index_of(self@.take(k as int), dims@.take(k as int)),
            decreases dims.len() - k,
        {
            proof {
                assert(in_bounds(self@.take(k + 1), dims@.take(k + 1)));
                lemma_index_of_bounds(self@.take(k + 1), dims@.take(k + 1));
                lemma_volume_prefix(dims@, k + 1);
                assert(self@.take(k + 1).drop_last() =~= self@.take(k as int));
                assert(dims@.take(k + 1).drop_last() =~= dims@.take(k as int));
            }
            acc = acc * dims[k] + self.0[k];
            k = k + 1;
        }
        proof {
            assert(self@.take(k as int) =~= self@);
            assert(dims@.take(k as int) =~= dims@);
        }
        acc
    }
}

/// The volume of a prefix of the axes divides, and so is at most, the whole
/// board's volume.
pub proof fn lemma_volume_prefix(dims: Seq<usize>, k: int)
    requires
        dims_positive(dims),
        0 <= k <= dims.len(),
    ensures
        1 <= volume(dims.take(k)) <= volume(dims),
    decreases dims.len() - k,
{
    lemma_volume_positive(dims.take(k));
    if k == dims.len() {
        assert(dims.take(k) =~= dims);
    } else {
        lemma_volume_prefix(dims, k + 1);
        let p = dims.take(k + 1);
        assert(p.drop_last() =~= dims.take(k));
        lemma_volume_positive(dims.take(k));
        assert(volume(dims.take(k)) <= volume(dims.take(k)) * p.last()) by (nonlinear_arith)
            requires
                volume(dims.take(k)) >= 1,
                p.last() >= 1,
        ;
    }
}

/// A board with at least one cell on every axis has positive volume.
pub proof fn lemma_volume_positive(dims: Seq<usize>)
    requires
        dims_positive(dims),
    ensures
        volume(dims) >= 1,
    decreases dims.len(),
{
    if dims.len() > 0 {
        lemma_volume_positive(dims.drop_last());
        assert(volume(dims.drop_last()) * dims.last() >= 1) by (nonlinear_arith)
            requires
                volume(dims.drop_last()) >= 1,
                dims.last() >= 1,
        ;
    }
}

} // verus!
