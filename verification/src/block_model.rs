//! The block model container: a dense three-dimensional grid of
//! optional payload cells, addressed by `BlockIndex`, together with the
//! dependence strategies that compute precedence neighborhoods.
//!
//! The grid is stored flat in row-major order (`i` outermost, then `j`,
//! then `k`); `flat_pos` is the addressing rule and is proved injective
//! on in-bounds indices.

use vstd::arithmetic::div_mod::{
    lemma_fundamental_div_mod, lemma_fundamental_div_mod_converse, lemma_mod_bound,
};
use vstd::prelude::*;

use crate::block::{BlockIndex, BlockInterface};

verus! {

/// Domain precondition failures of model construction.
#[derive(Debug, PartialEq, Eq, Structural, Copy, Clone)]
pub enum BlockModelError {
    /// An unindexed batch was empty, or two of its blocks report
    /// different cell sizes.
    InconsistentBlockSize,
    /// A block's coordinate does not lie on the grid implied by the
    /// model origin and the common cell size.
    MisalignedCoordinate,
}

/// Row-major flat position of a grid address, for a grid with `nj`
/// cells along `j` and `nk` cells along `k`.
pub open spec fn flat_pos(ind: BlockIndex, nj: int, nk: int) -> int {
    (ind.i * nj + ind.j) * nk + ind.k
}

/// The largest `i` component over a sequence of indices, at least 0.
pub open spec fn max_axis_i(inds: Seq<BlockIndex>) -> int
    decreases inds.len(),
{
    if inds.len() == 0 {
        0
    } else {
        let m = max_axis_i(inds.drop_last());
        if inds.last().i > m {
            inds.last().i as int
        } else {
            m
        }
    }
}

/// The largest `j` component over a sequence of indices, at least 0.
pub open spec fn max_axis_j(inds: Seq<BlockIndex>) -> int
    decreases inds.len(),
{
    if inds.len() == 0 {
        0
    } else {
        let m = max_axis_j(inds.drop_last());
        if inds.last().j > m {
            inds.last().j as int
        } else {
            m
        }
    }
}

/// The largest `k` component over a sequence of indices, at least 0.
pub open spec fn max_axis_k(inds: Seq<BlockIndex>) -> int
    decreases inds.len(),
{
    if inds.len() == 0 {
        0
    } else {
        let m = max_axis_k(inds.drop_last());
        if inds.last().k > m {
            inds.last().k as int
        } else {
            m
        }
    }
}

/// Number of cells of the dense grid spanned by a batch of indices:
/// one more than the maximum along each axis, multiplied out.
pub open spec fn grid_volume(inds: Seq<BlockIndex>) -> int {
    (max_axis_i(inds) + 1) * (max_axis_j(inds) + 1) * (max_axis_k(inds) + 1)
}

/// Every component of every index is bounded by the axis maximum.
pub proof fn lemma_max_axis_bounds(inds: Seq<BlockIndex>)
    ensures
        forall|n: int|
            0 <= n < inds.len() ==> (#[trigger] inds[n]).i <= max_axis_i(inds)
                && inds[n].j <= max_axis_j(inds) && inds[n].k <= max_axis_k(inds),
    decreases inds.len(),
{
    if inds.len() > 0 {
        lemma_max_axis_bounds(inds.drop_last());
        assert forall|n: int|
            0 <= n < inds.len() implies (#[trigger] inds[n]).i <= max_axis_i(inds) && inds[n].j
            <= max_axis_j(inds) && inds[n].k <= max_axis_k(inds) by {
            if n < inds.len() - 1 {
                assert(inds.drop_last()[n] == inds[n]);
            } else {
                assert(inds[n] == inds.last());
            }
        }
    }
}

/// The payload that survives at a grid address when the batch is
/// written in input order: the last pairing with that address wins.
pub open spec fn last_write<B>(blocks: Seq<B>, inds: Seq<BlockIndex>, ind: BlockIndex) -> Option<
    B,
>
    decreases blocks.len(),
{
    if blocks.len() == 0 || inds.len() == 0 {
        None
    } else if inds.last() == ind {
        Some(blocks.last())
    } else {
        last_write(blocks.drop_last(), inds.drop_last(), ind)
    }
}

/// A write at a grid address survives exactly when no later pairing
/// targets the same address; an address is occupied exactly when some
/// pairing targets it.
#[verifier::rlimit(100)]
pub proof fn lemma_last_write_wins<B>(blocks: Seq<B>, inds: Seq<BlockIndex>, ind: BlockIndex)
    requires
        blocks.len() == inds.len(),
    ensures
        last_write(blocks, inds, ind) is Some <==> (exists|n: int|
            0 <= n < inds.len() && inds[n] == ind),
        (exists|n: int| 0 <= n < inds.len() && inds[n] == ind) ==> (exists|m: int|
            0 <= m < inds.len() && inds[m] == ind && (forall|p: int|
                m < p < inds.len() ==> inds[p] != ind)),
        forall|m: int|
            (0 <= m < inds.len() && inds[m] == ind && (forall|p: int|
                m < p < inds.len() ==> inds[p] != ind)) ==> last_write(blocks, inds, ind) == Some(
                blocks[m],
            ),
    decreases blocks.len(),
{
    if blocks.len() == 0 {
    } else {
        let w = inds.len() - 1;
        if inds.last() == ind {
            assert(inds[w] == ind);
            assert forall|m: int|
                (0 <= m < inds.len() && inds[m] == ind && (forall|p: int|
                    m < p < inds.len() ==> inds[p] != ind)) implies last_write(blocks, inds, ind)
                == Some(blocks[m]) by {
                if m < w {
                    assert(inds[w] == ind);
                    assert(false);
                } else {
                    assert(blocks[m] == blocks.last());
                }
            }
        } else {
            lemma_last_write_wins(blocks.drop_last(), inds.drop_last(), ind);
            assert(last_write(blocks, inds, ind) == last_write(
                blocks.drop_last(),
                inds.drop_last(),
                ind,
            ));
            if exists|n: int| 0 <= n < inds.len() && inds[n] == ind {
                let n0 = choose|n: int| 0 <= n < inds.len() && inds[n] == ind;
                assert(n0 < w);
                assert(inds.drop_last()[n0] == inds[n0]);
                let m0 = choose|m: int|
                    0 <= m < w && inds.drop_last()[m] == ind && (forall|p: int|
                        m < p < w ==> inds.drop_last()[p] != ind);
                assert(inds[m0] == inds.drop_last()[m0]);
                assert forall|p: int| m0 < p < inds.len() implies inds[p] != ind by {
                    if p < w {
                        assert(inds.drop_last()[p] == inds[p]);
                    }
                }
            }
            if exists|n: int| 0 <= n < w && inds.drop_last()[n] == ind {
                let n1 = choose|n: int| 0 <= n < w && inds.drop_last()[n] == ind;
                assert(inds[n1] == inds.drop_last()[n1]);
            }
            assert forall|m: int|
                (0 <= m < inds.len() && inds[m] == ind && (forall|p: int|
                    m < p < inds.len() ==> inds[p] != ind)) implies last_write(blocks, inds, ind)
                == Some(blocks[m]) by {
                assert(m < w);
                assert(inds.drop_last()[m] == inds[m]);
                assert forall|p: int| m < p < w implies inds.drop_last()[p] != ind by {
                    assert(inds.drop_last()[p] == inds[p]);
                }
                assert(blocks.drop_last()[m] == blocks[m]);
            }
        }
    }
}

/// The smallest `x` coordinate over a non-empty batch of blocks.
pub open spec fn origin_x<B: BlockInterface>(blocks: Seq<B>) -> int
    decreases blocks.len(),
{
    if blocks.len() <= 1 {
        blocks[0].spec_coordinates().x as int
    } else {
        let m = origin_x(blocks.drop_last());
        if blocks.last().spec_coordinates().x < m {
            blocks.last().spec_coordinates().x as int
        } else {
            m
        }
    }
}

/// The smallest `y` coordinate over a non-empty batch of blocks.
pub open spec fn origin_y<B: BlockInterface>(blocks: Seq<B>) -> int
    decreases blocks.len(),
{
    if blocks.len() <= 1 {
        blocks[0].spec_coordinates().y as int
    } else {
        let m = origin_y(blocks.drop_last());
        if blocks.last().spec_coordinates().y < m {
            blocks.last().spec_coordinates().y as int
        } else {
            m
        }
    }
}

/// The smallest `z` coordinate over a non-empty batch of blocks.
pub open spec fn origin_z<B: BlockInterface>(blocks: Seq<B>) -> int
    decreases blocks.len(),
{
    if blocks.len() <= 1 {
        blocks[0].spec_coordinates().z as int
    } else {
        let m = origin_z(blocks.drop_last());
        if blocks.last().spec_coordinates().z < m {
            blocks.last().spec_coordinates().z as int
        } else {
            m
        }
    }
}

/// The origin is a lower bound of every coordinate in the batch.
pub proof fn lemma_origin_bounds<B: BlockInterface>(blocks: Seq<B>)
    requires
        blocks.len() > 0,
    ensures
        forall|n: int|
            0 <= n < blocks.len() ==> origin_x(blocks) <= (#[trigger] blocks[n]).spec_coordinates().x
                && origin_y(blocks) <= blocks[n].spec_coordinates().y && origin_z(blocks)
                <= blocks[n].spec_coordinates().z,
    decreases blocks.len(),
{
    if blocks.len() > 1 {
        lemma_origin_bounds(blocks.drop_last());
        assert forall|n: int|
            0 <= n < blocks.len() implies origin_x(blocks) <= (
        #[trigger] blocks[n]).spec_coordinates().x && origin_y(blocks)
            <= blocks[n].spec_coordinates().y && origin_z(blocks)
            <= blocks[n].spec_coordinates().z by {
            if n < blocks.len() - 1 {
                assert(blocks.drop_last()[n] == blocks[n]);
            } else {
                assert(blocks[n] == blocks.last());
            }
        }
    }
}

/// Every block of the batch reports the same cell size as the first.
pub open spec fn sizes_consistent<B: BlockInterface>(blocks: Seq<B>) -> bool {
    forall|n: int|
        0 <= n < blocks.len() ==> (#[trigger] blocks[n]).spec_size() == blocks[0].spec_size()
}

/// An offset `d` from the origin lies on the grid of spacing `s`: it
/// is an exact multiple of `s` with a non-negative quotient, `d` being
/// non-negative in every intended use.
pub open spec fn aligned(d: int, s: int) -> bool {
    (s > 0 && d % s == 0) || (s < 0 && d == 0)
}

/// The grid step count of an offset `d` at spacing `s`; meaningful
/// under `aligned(d, s)`.
pub open spec fn grid_quot(d: int, s: int) -> int {
    if s > 0 {
        d / s
    } else {
        0
    }
}

/// An aligned offset is exactly its step count times the spacing.
pub proof fn lemma_aligned_reconstruct(d: int, s: int)
    requires
        aligned(d, s),
    ensures
        grid_quot(d, s) * s == d,
{
    if s > 0 {
        lemma_fundamental_div_mod(d, s);
        assert(d == s * (d / s) + (d % s));
        assert(grid_quot(d, s) * s == (d / s) * s);
    }
}

/// The coordinates of block `n` of the batch lie on the grid spanned
/// by the batch origin and the common cell size.
pub open spec fn block_aligned_at<B: BlockInterface>(blocks: Seq<B>, n: int) -> bool {
    let c = blocks[n].spec_coordinates();
    let s = blocks[0].spec_size();
    aligned(c.x - origin_x(blocks), s.x_size as int) && aligned(
        c.y - origin_y(blocks),
        s.y_size as int,
    ) && aligned(c.z - origin_z(blocks), s.z_size as int)
}

/// The grid address of block `n` of the batch: its per-axis step
/// count from the batch origin.
pub open spec fn unindexed_index<B: BlockInterface>(blocks: Seq<B>, n: int) -> BlockIndex {
    let c = blocks[n].spec_coordinates();
    let s = blocks[0].spec_size();
    BlockIndex {
        i: grid_quot(c.x - origin_x(blocks), s.x_size as int) as usize,
        j: grid_quot(c.y - origin_y(blocks), s.y_size as int) as usize,
        k: grid_quot(c.z - origin_z(blocks), s.z_size as int) as usize,
    }
}

/// The grid addresses of the whole batch, in input order.
pub open spec fn unindexed_inds<B: BlockInterface>(blocks: Seq<B>) -> Seq<BlockIndex> {
    Seq::new(blocks.len() as nat, |n: int| unindexed_index(blocks, n))
}

/// An unindexed batch is acceptable: non-empty, of one common cell
/// size, with every coordinate on the implied grid.
pub open spec fn unindexed_ok<B: BlockInterface>(blocks: Seq<B>) -> bool {
    blocks.len() > 0 && sizes_consistent(blocks) && (forall|n: int|
        0 <= n < blocks.len() ==> block_aligned_at(blocks, n))
}

/// The machine limit on an acceptable batch: every step count and the
/// dense grid volume fit in a `usize`.
pub open spec fn unindexed_fits<B: BlockInterface>(blocks: Seq<B>) -> bool {
    (forall|n: int|
        0 <= n < blocks.len() ==> {
            let c = (#[trigger] blocks[n]).spec_coordinates();
            let s = blocks[0].spec_size();
            grid_quot(c.x - origin_x(blocks), s.x_size as int) <= usize::MAX && grid_quot(
                c.y - origin_y(blocks),
                s.y_size as int,
            ) <= usize::MAX && grid_quot(c.z - origin_z(blocks), s.z_size as int) <= usize::MAX
        }) && grid_volume(unindexed_inds(blocks)) <= usize::MAX
}

/// A dense rectangular 3D grid of optional payloads.
pub struct BlockModel<B: BlockInterface> {
    cells: Vec<Option<B>>,
    dim_i: usize,
    dim_j: usize,
    dim_k: usize,
}

impl<B: BlockInterface> BlockModel<B> {
    /// Grid extent along `i`.
    pub closed spec fn num_i(&self) -> int {
        self.dim_i as int
    }

    /// Grid extent along `j`.
    pub closed spec fn num_j(&self) -> int {
        self.dim_j as int
    }

    /// Grid extent along `k`.
    pub closed spec fn num_k(&self) -> int {
        self.dim_k as int
    }

    /// The contents of the cell at a grid address.
    pub closed spec fn cell_at(&self, ind: BlockIndex) -> Option<B> {
        self.cells@[flat_pos(ind, self.num_j(), self.num_k())]
    }

    /// Whether a grid address lies inside the allocated extent.
    pub open spec fn in_bounds(&self, ind: BlockIndex) -> bool {
        ind.i < self.num_i() && ind.j < self.num_j() && ind.k < self.num_k()
    }

    /// The flat storage holds exactly one slot per grid address.
    pub closed spec fn storage_ok(&self) -> bool {
        self.cells@.len() == self.num_i() * self.num_j() * self.num_k()
    }

    /// Well-formedness: every axis has at least one layer and the flat
    /// storage matches the declared extent.
    pub open spec fn wf(&self) -> bool {
        self.num_i() >= 1 && self.num_j() >= 1 && self.num_k() >= 1 && self.storage_ok()
    }
}

/// Row-major addressing keeps every in-bounds index inside the flat
/// storage.
proof fn lemma_flat_pos_bound(ind: BlockIndex, ni: int, nj: int, nk: int)
    requires
        ind.i < ni,
        ind.j < nj,
        ind.k < nk,
    ensures
        0 <= ind.i * nj + ind.j < ni * nj,
        ni * nj <= ni * nj * nk,
        0 <= flat_pos(ind, nj, nk) < ni * nj * nk,
{
    assert(0 <= ind.i * nj + ind.j < ni * nj && ni * nj <= ni * nj * nk && 0 <= (ind.i * nj
        + ind.j) * nk + ind.k < ni * nj * nk) by (nonlinear_arith)
        requires
            0 <= ind.i < ni,
            0 <= ind.j < nj,
            0 <= ind.k < nk,
    ;
}

/// Row-major addressing is injective on in-bounds indices.
proof fn lemma_flat_pos_injective(a: BlockIndex, b: BlockIndex, nj: int, nk: int)
    requires
        a.j < nj,
        a.k < nk,
        b.j < nj,
        b.k < nk,
        flat_pos(a, nj, nk) == flat_pos(b, nj, nk),
    ensures
        a == b,
{
    let qa = a.i * nj + a.j;
    let qb = b.i * nj + b.j;
    lemma_fundamental_div_mod_converse(qa * nk + a.k, nk, qa, a.k as int);
    lemma_fundamental_div_mod_converse(qb * nk + b.k, nk, qb, b.k as int);
    assert(qa == qb);
    lemma_fundamental_div_mod_converse(qa, nj, a.i as int, a.j as int);
    lemma_fundamental_div_mod_converse(qb, nj, b.i as int, b.j as int);
}

impl<B: BlockInterface> BlockModel<B> {
    /// Builds a model from equal-length batches of payloads and grid
    /// addresses.
    ///
    /// The grid extent along each axis is one more than the largest
    /// address component in the batch; every cell starts absent, then
    /// the pairs are written in input order, a later pair overwriting
    /// any earlier occupant of the same address.
    pub fn from_indexed(blocks: Vec<B>, inds: Vec<BlockIndex>) -> (model: Self)
        requires
            blocks@.len() == inds@.len(),
            grid_volume(inds@) <= usize::MAX,
        ensures
            model.wf(),
            model.num_i() == max_axis_i(inds@) + 1,
            model.num_j() == max_axis_j(inds@) + 1,
            model.num_k() == max_axis_k(inds@) + 1,
            forall|ind: BlockIndex|
                model.in_bounds(ind) ==> model.cell_at(ind) == last_write(blocks@, inds@, ind),
    {
        let n = inds.len();

        // Axis maxima of the batch.
        let mut mi: usize = 0;
        let mut mj: usize = 0;
        let mut mk: usize = 0;
        for t in 0..n
            invariant
                n == inds@.len(),
                mi == max_axis_i(inds@.subrange(0, t as int)),
                mj == max_axis_j(inds@.subrange(0, t as int)),
                mk == max_axis_k(inds@.subrange(0, t as int)),
        {
            proof {
                assert(inds@.subrange(0, t + 1).drop_last() =~= inds@.subrange(0, t as int));
                assert(inds@.subrange(0, t + 1).last() == inds@[t as int]);
            }
            if inds[t].i > mi {
                mi = inds[t].i;
            }
            if inds[t].j > mj {
                mj = inds[t].j;
            }
            if inds[t].k > mk {
                mk = inds[t].k;
            }
        }
        proof {
            assert(inds@.subrange(0, n as int) =~= inds@);
        }

        // The dense extent fits in a usize because the caller bounded
        // the grid volume.
        assert(mi + 1 <= (mi + 1) * (mj + 1) * (mk + 1) && mj + 1 <= (mi + 1) * (mj + 1) * (mk + 1)
            && mk + 1 <= (mi + 1) * (mj + 1) * (mk + 1) && (mi + 1) * (mj + 1) <= (mi + 1) * (mj
            + 1) * (mk + 1)) by (nonlinear_arith)
            requires
                mi >= 0,
                mj >= 0,
                mk >= 0,
        ;
        assert((mi + 1) * (mj + 1) * (mk + 1) == grid_volume(inds@));
        let di = mi + 1;
        let dj = mj + 1;
        let dk = mk + 1;
        let vol = di * dj * dk;

        let mut cells: Vec<Option<B>> = Vec::new();
        while cells.len() < vol
            invariant
                cells@.len() <= vol,
                forall|p: int| 0 <= p < cells@.len() ==> cells@[p] is None,
            decreases vol - cells@.len(),
        {
            cells.push(None);
        }

        // Write the batch in input order; later pairs overwrite.
        let ghost all_blocks = blocks@;
        proof {
            assert(all_blocks.subrange(0, n as int) =~= all_blocks);
            assert(inds@.subrange(0, n as int) =~= inds@);
            assert forall|ind: BlockIndex| (ind.i < di && ind.j < dj && ind.k
                < dk) implies #[trigger] cells@[flat_pos(ind, dj as int, dk as int)] == last_write(
                all_blocks.subrange(0, 0),
                inds@.subrange(0, 0),
                ind,
            ) by {
                lemma_flat_pos_bound(ind, di as int, dj as int, dk as int);
            }
        }
        let mut blocks = blocks;
        let mut t: usize = 0;
        while t < n
            invariant
                n == inds@.len(),
                n == all_blocks.len(),
                t <= n,
                blocks@ == all_blocks.subrange(t as int, n as int),
                cells@.len() == di * dj * dk,
                di * dj * dk <= usize::MAX,
                di == max_axis_i(inds@) + 1,
                dj == max_axis_j(inds@) + 1,
                dk == max_axis_k(inds@) + 1,
                forall|ind: BlockIndex|
                    (ind.i < di && ind.j < dj && ind.k < dk) ==> #[trigger] cells@[flat_pos(
                        ind,
                        dj as int,
                        dk as int,
                    )] == last_write(
                        all_blocks.subrange(0, t as int),
                        inds@.subrange(0, t as int),
                        ind,
                    ),
            decreases n - t,
        {
            let b = blocks.remove(0);
            let ind = inds[t];
            proof {
                lemma_max_axis_bounds(inds@);
                lemma_flat_pos_bound(ind, di as int, dj as int, dk as int);
            }
            let pos_high = ind.i * dj + ind.j;
            assert(pos_high * dk + ind.k < di * dj * dk);
            let pos = pos_high * dk + ind.k;
            let cell = &mut cells[pos];
            *cell = Some(b);

            proof {
                let pre = all_blocks.subrange(0, t as int);
                let pre_inds = inds@.subrange(0, t as int);
                let cur = all_blocks.subrange(0, t + 1);
                let cur_inds = inds@.subrange(0, t + 1);
                assert(cur.drop_last() =~= pre);
                assert(cur_inds.drop_last() =~= pre_inds);
                assert(cur.last() == all_blocks[t as int]);
                assert(cur_inds.last() == ind);
                assert(blocks@ =~= all_blocks.subrange(t + 1, n as int));
                assert forall|x: BlockIndex| (x.i < di && x.j < dj && x.k < dk) implies #[trigger] cells@[flat_pos(
                    x,
                    dj as int,
                    dk as int,
                )] == last_write(cur, cur_inds, x) by {
                    lemma_flat_pos_bound(x, di as int, dj as int, dk as int);
                    if x != ind && flat_pos(x, dj as int, dk as int) == flat_pos(
                        ind,
                        dj as int,
                        dk as int,
                    ) {
                        lemma_flat_pos_injective(x, ind, dj as int, dk as int);
                    }
                }
            }
            t = t + 1;
        }
        proof {
            assert(all_blocks.subrange(0, n as int) =~= all_blocks);
            assert(inds@.subrange(0, n as int) =~= inds@);
        }

        BlockModel { cells, dim_i: di, dim_j: dj, dim_k: dk }
    }

    /// The cell at a grid address.
    pub fn block(&self, ind: BlockIndex) -> (cell: &Option<B>)
        requires
            self.wf(),
            self.in_bounds(ind),
        ensures
            *cell == self.cell_at(ind),
    {
        let len = self.cells.len();
        proof {
            lemma_flat_pos_bound(ind, self.num_i(), self.num_j(), self.num_k());
        }
        let pos = (ind.i * self.dim_j + ind.j) * self.dim_k + ind.k;
        &self.cells[pos]
    }

    /// Mutable access to the cell at a grid address.
    ///
    /// Only that one cell can change through the returned reference;
    /// the extent and every other cell stay as they were.
    pub fn block_mut(&mut self, ind: BlockIndex) -> (cell: &mut Option<B>)
        requires
            old(self).wf(),
            old(self).in_bounds(ind),
        ensures
            *cell == old(self).cell_at(ind),
            final(self).wf(),
            final(self).num_i() == old(self).num_i(),
            final(self).num_j() == old(self).num_j(),
            final(self).num_k() == old(self).num_k(),
            final(self).cell_at(ind) == *final(cell),
            forall|x: BlockIndex|
                old(self).in_bounds(x) && x != ind ==> final(self).cell_at(x) == old(
                    self,
                ).cell_at(x),
    {
        let len = self.cells.len();
        proof {
            lemma_flat_pos_bound(ind, self.num_i(), self.num_j(), self.num_k());
            assert forall|x: BlockIndex|
                x.i < self.num_i() && x.j < self.num_j() && x.k < self.num_k() && x
                    != ind implies 0 <= flat_pos(x, self.num_j(), self.num_k())
                < self.cells@.len() && flat_pos(x, self.num_j(), self.num_k()) != flat_pos(
                ind,
                self.num_j(),
                self.num_k(),
            ) by {
                lemma_flat_pos_bound(x, self.num_i(), self.num_j(), self.num_k());
                if flat_pos(x, self.num_j(), self.num_k()) == flat_pos(
                    ind,
                    self.num_j(),
                    self.num_k(),
                ) {
                    lemma_flat_pos_injective(x, ind, self.num_j(), self.num_k());
                }
            }
        }
        let pos = (ind.i * self.dim_j + ind.j) * self.dim_k + ind.k;
        &mut self.cells[pos]
    }
}

/// The exact grid step count between a coordinate and the origin at
/// the given spacing, or `None` when the coordinate is off the grid.
fn axis_steps(coord: i64, org: i64, size: i64) -> (r: Option<u128>)
    requires
        org <= coord,
    ensures
        r is Some <==> aligned(coord - org, size as int),
        r is Some ==> r->Some_0 == grid_quot(coord - org, size as int),
{
    let d = coord as i128 - org as i128;
    if size > 0 {
        let du = d as u128;
        let su = size as u128;
        if du % su == 0 {
            Some(du / su)
        } else {
            None
        }
    } else if size < 0 {
        if d == 0 {
            Some(0)
        } else {
            None
        }
    } else {
        None
    }
}

impl<B: BlockInterface> BlockModel<B> {
    /// Builds a model from a batch of payloads that carry no grid
    /// addresses yet.
    ///
    /// The model origin is the per-axis minimum coordinate of the
    /// batch. Every payload must report the same cell size, and every
    /// coordinate must be an exact whole number of cells away from the
    /// origin; the computed address is recorded on each payload, and
    /// the indexed construction then runs on the batch in input order.
    pub fn from_unindexed(blocks: Vec<B>) -> (r: Result<Self, BlockModelError>)
        requires
            unindexed_ok(blocks@) ==> unindexed_fits(blocks@),
        ensures
            match r {
                Ok(model) => unindexed_ok(blocks@) && {
                    let inds = unindexed_inds(blocks@);
                    let s = blocks@[0].spec_size();
                    &&& model.wf()
                    &&& model.num_i() == max_axis_i(inds) + 1
                    &&& model.num_j() == max_axis_j(inds) + 1
                    &&& model.num_k() == max_axis_k(inds) + 1
                    &&& forall|x: BlockIndex|
                        model.in_bounds(x) ==> match model.cell_at(x) {
                            Some(b) => inds.contains(x) && b.spec_index() == x && b.spec_size()
                                == s && b.spec_coordinates().x == origin_x(blocks@) + x.i
                                * s.x_size && b.spec_coordinates().y == origin_y(blocks@) + x.j
                                * s.y_size && b.spec_coordinates().z == origin_z(blocks@) + x.k
                                * s.z_size,
                            None => !inds.contains(x),
                        }
                },
                Err(BlockModelError::InconsistentBlockSize) => blocks@.len() == 0
                    || !sizes_consistent(blocks@),
                Err(BlockModelError::MisalignedCoordinate) => blocks@.len() > 0
                    && sizes_consistent(blocks@) && !(forall|n: int|
                    0 <= n < blocks@.len() ==> block_aligned_at(blocks@, n)),
            },
    {
        let n = blocks.len();
        if n == 0 {
            return Err(BlockModelError::InconsistentBlockSize);
        }

        // The model origin: the per-axis minimum coordinate.
        let c0 = blocks[0].coordinates();
        let mut min_x = c0.x;
        let mut min_y = c0.y;
        let mut min_z = c0.z;
        let mut t: usize = 1;
        proof {
            assert(min_x == origin_x(blocks@.subrange(0, 1)) && min_y == origin_y(
                blocks@.subrange(0, 1),
            ) && min_z == origin_z(blocks@.subrange(0, 1)));
        }
        while t < n
            invariant
                1 <= t <= n,
                n == blocks@.len(),
                min_x == origin_x(blocks@.subrange(0, t as int)),
                min_y == origin_y(blocks@.subrange(0, t as int)),
                min_z == origin_z(blocks@.subrange(0, t as int)),
            decreases n - t,
        {
            proof {
                assert(blocks@.subrange(0, t + 1).drop_last() =~= blocks@.subrange(0, t as int));
                assert(blocks@.subrange(0, t + 1).last() == blocks@[t as int]);
            }
            let c = blocks[t].coordinates();
            if c.x < min_x {
                min_x = c.x;
            }
            if c.y < min_y {
                min_y = c.y;
            }
            if c.z < min_z {
                min_z = c.z;
            }
            t = t + 1;
        }
        proof {
            assert(blocks@.subrange(0, n as int) =~= blocks@);
        }

        // Every payload must report the common cell size.
        let s0 = blocks[0].size();
        t = 0;
        while t < n
            invariant
                t <= n,
                n == blocks@.len(),
                n > 0,
                s0 == blocks@[0].spec_size(),
                forall|m: int|
                    0 <= m < t ==> (#[trigger] blocks@[m]).spec_size() == blocks@[0].spec_size(),
            decreases n - t,
        {
            if !(blocks[t].size() == s0) {
                return Err(BlockModelError::InconsistentBlockSize);
            }
            t = t + 1;
        }
        assert(sizes_consistent(blocks@));

        // Every coordinate must lie on the grid implied by the origin
        // and the cell size.
        proof {
            lemma_origin_bounds(blocks@);
        }
        t = 0;
        while t < n
            invariant
                t <= n,
                n == blocks@.len(),
                n > 0,
                sizes_consistent(blocks@),
                s0 == blocks@[0].spec_size(),
                min_x == origin_x(blocks@),
                min_y == origin_y(blocks@),
                min_z == origin_z(blocks@),
                forall|m: int|
                    0 <= m < blocks@.len() ==> min_x <= (
                    #[trigger] blocks@[m]).spec_coordinates().x && min_y
                        <= blocks@[m].spec_coordinates().y && min_z
                        <= blocks@[m].spec_coordinates().z,
                forall|m: int| 0 <= m < t ==> block_aligned_at(blocks@, m),
            decreases n - t,
        {
            let c = blocks[t].coordinates();
            let sx = axis_steps(c.x, min_x, s0.x_size);
            let sy = axis_steps(c.y, min_y, s0.y_size);
            let sz = axis_steps(c.z, min_z, s0.z_size);
            if sx.is_none() || sy.is_none() || sz.is_none() {
                assert(!block_aligned_at(blocks@, t as int));
                return Err(BlockModelError::MisalignedCoordinate);
            }
            assert(block_aligned_at(blocks@, t as int));
            t = t + 1;
        }
        assert(unindexed_ok(blocks@));

        // Record the computed grid address on every payload.
        let ghost all = blocks@;
        let mut rest = blocks;
        let mut updated: Vec<B> = Vec::new();
        let mut inds: Vec<BlockIndex> = Vec::new();
        t = 0;
        proof {
            assert(all.subrange(0, n as int) =~= all);
        }
        while t < n
            invariant
                t <= n,
                n == all.len(),
                n > 0,
                unindexed_ok(all),
                unindexed_fits(all),
                rest@ == all.subrange(t as int, n as int),
                updated@.len() == t,
                inds@.len() == t,
                s0 == all[0].spec_size(),
                min_x == origin_x(all),
                min_y == origin_y(all),
                min_z == origin_z(all),
                forall|m: int|
                    0 <= m < all.len() ==> min_x <= (#[trigger] all[m]).spec_coordinates().x
                        && min_y <= all[m].spec_coordinates().y && min_z
                        <= all[m].spec_coordinates().z,
                forall|m: int| 0 <= m < t ==> #[trigger] inds@[m] == unindexed_index(all, m),
                forall|m: int|
                    0 <= m < t ==> (#[trigger] updated@[m]).spec_index() == unindexed_index(all, m)
                        && updated@[m].spec_coordinates() == all[m].spec_coordinates()
                        && updated@[m].spec_size() == all[m].spec_size(),
            decreases n - t,
        {
            let mut b = rest.remove(0);
            proof {
                assert(rest@ =~= all.subrange(t + 1, n as int));
                assert(b == all[t as int]);
            }
            let c = b.coordinates();
            let sx = axis_steps(c.x, min_x, s0.x_size);
            let sy = axis_steps(c.y, min_y, s0.y_size);
            let sz = axis_steps(c.z, min_z, s0.z_size);
            assert(block_aligned_at(all, t as int));
            let qx = sx.unwrap();
            let qy = sy.unwrap();
            let qz = sz.unwrap();
            let ind = BlockIndex { i: qx as usize, j: qy as usize, k: qz as usize };
            assert(ind == unindexed_index(all, t as int));
            b.set_index(ind);
            updated.push(b);
            inds.push(ind);
            t = t + 1;
        }

        proof {
            assert(inds@ =~= unindexed_inds(all));
        }
        let model = Self::from_indexed(updated, inds);

        // Every occupied cell holds the survivor of the input order at
        // its address, whose coordinates map back through the origin
        // and the cell size.
        proof {
            let uinds = unindexed_inds(all);
            assert forall|x: BlockIndex| model.in_bounds(x) implies match model.cell_at(x) {
                Some(b) => uinds.contains(x) && b.spec_index() == x && b.spec_size()
                    == all[0].spec_size() && b.spec_coordinates().x == origin_x(all) + x.i
                    * all[0].spec_size().x_size && b.spec_coordinates().y == origin_y(all) + x.j
                    * all[0].spec_size().y_size && b.spec_coordinates().z == origin_z(all) + x.k
                    * all[0].spec_size().z_size,
                None => !uinds.contains(x),
            } by {
                lemma_last_write_wins(updated@, uinds, x);
                match model.cell_at(x) {
                    Some(b) => {
                        let m = choose|m: int|
                            0 <= m < uinds.len() && uinds[m] == x && (forall|p: int|
                                m < p < uinds.len() ==> uinds[p] != x);
                        assert(model.cell_at(x) == Some(updated@[m]));
                        assert(uinds[m] == x);
                        let cm = all[m].spec_coordinates();
                        let s = all[0].spec_size();
                        assert(block_aligned_at(all, m));
                        lemma_aligned_reconstruct(cm.x - origin_x(all), s.x_size as int);
                        lemma_aligned_reconstruct(cm.y - origin_y(all), s.y_size as int);
                        lemma_aligned_reconstruct(cm.z - origin_z(all), s.z_size as int);
                    },
                    None => {
                        if uinds.contains(x) {
                            assert(last_write(updated@, uinds, x) is Some);
                            assert(false);
                        }
                    },
                }
            }
        }
        Ok(model)
    }
}

/// The lower edge of the horizontal footprint around a center
/// component: one below it, clamped at the grid edge.
pub open spec fn fp_lo(c: int) -> int {
    if c - 1 < 0 {
        0
    } else {
        c - 1
    }
}

/// The exclusive upper edge of the horizontal footprint around a
/// center component: two above it, clamped at the grid extent.
pub open spec fn fp_hi(c: int, n: int) -> int {
    if c + 2 > n {
        n
    } else {
        c + 2
    }
}

/// The horizontal 3x3 candidate neighborhood of center `(ci, cj)` on
/// vertical layer `layer`, clamped to a grid of extent `ni` by `nj`,
/// in row-major order (`i` outer, `j` inner).
pub open spec fn footprint(ci: int, cj: int, layer: int, ni: int, nj: int) -> Seq<BlockIndex> {
    let ilo = fp_lo(ci);
    let ihi = fp_hi(ci, ni);
    let jlo = fp_lo(cj);
    let jhi = fp_hi(cj, nj);
    let w = jhi - jlo;
    Seq::new(
        ((ihi - ilo) * w) as nat,
        |t: int|
            (BlockIndex {
                i: (ilo + t / w) as usize,
                j: (jlo + t % w) as usize,
                k: layer as usize,
            }),
    )
}

/// A truncating division of `t` in `[0, h * w)` by `w` lands in
/// `[0, h)`, with the remainder in `[0, w)`.
proof fn lemma_div_mod_in_range(t: int, w: int, h: int)
    requires
        0 <= t < h * w,
        0 < w,
    ensures
        0 <= t / w < h,
        0 <= t % w < w,
{
    lemma_fundamental_div_mod(t, w);
    lemma_mod_bound(t, w);
    let q = t / w;
    let r = t % w;
    assert(0 <= q < h) by (nonlinear_arith)
        requires
            t == w * q + r,
            0 <= r < w,
            0 <= t < h * w,
            0 < w,
    ;
}

/// Shape of the footprint around an in-bounds center: its length, the
/// bounds of each entry, and the position of the center entry.
pub proof fn lemma_footprint_props(ci: int, cj: int, layer: int, ni: int, nj: int)
    requires
        0 <= ci < ni,
        0 <= cj < nj,
        0 <= layer,
        layer <= usize::MAX,
        ni <= usize::MAX,
        nj <= usize::MAX,
    ensures
        footprint(ci, cj, layer, ni, nj).len() == (fp_hi(ci, ni) - fp_lo(ci)) * (fp_hi(cj, nj)
            - fp_lo(cj)),
        forall|t: int|
            0 <= t < footprint(ci, cj, layer, ni, nj).len() ==> {
                let b = #[trigger] footprint(ci, cj, layer, ni, nj)[t];
                fp_lo(ci) <= b.i < fp_hi(ci, ni) && fp_lo(cj) <= b.j < fp_hi(cj, nj) && b.k
                    == layer
            },
        0 <= (ci - fp_lo(ci)) * (fp_hi(cj, nj) - fp_lo(cj)) + (cj - fp_lo(cj)) < footprint(
            ci,
            cj,
            layer,
            ni,
            nj,
        ).len(),
        footprint(ci, cj, layer, ni, nj)[(ci - fp_lo(ci)) * (fp_hi(cj, nj) - fp_lo(cj)) + (cj
            - fp_lo(cj))] == (BlockIndex { i: ci as usize, j: cj as usize, k: layer as usize }),
{
    let ilo = fp_lo(ci);
    let ihi = fp_hi(ci, ni);
    let jlo = fp_lo(cj);
    let jhi = fp_hi(cj, nj);
    let w = jhi - jlo;
    let h = ihi - ilo;
    let fp = footprint(ci, cj, layer, ni, nj);
    assert(fp.len() == h * w) by {
        assert(h * w >= 0) by (nonlinear_arith)
            requires
                h >= 0,
                w >= 0,
        ;
    }
    assert forall|t: int| 0 <= t < fp.len() implies {
        let b = #[trigger] fp[t];
        ilo <= b.i < ihi && jlo <= b.j < jhi && b.k == layer
    } by {
        lemma_div_mod_in_range(t, w, h);
    }
    let tc = (ci - ilo) * w + (cj - jlo);
    assert(0 <= tc < h * w && tc / w == ci - ilo && tc % w == cj - jlo) by {
        assert(0 <= tc < h * w) by (nonlinear_arith)
            requires
                tc == (ci - ilo) * w + (cj - jlo),
                0 <= ci - ilo < h,
                0 <= cj - jlo < w,
        ;
        lemma_fundamental_div_mod_converse(tc, w, ci - ilo, cj - jlo);
    }
}

/// Relies on `num::clamp`: the input forced into `[min, max]`; it
/// panics when `min > max`, which the precondition rules out.
#[verifier::external_body]
fn clamp_i128(input: i128, min: i128, max: i128) -> (r: i128)
    requires
        min <= max,
    ensures
        r == if input < min {
            min
        } else if input > max {
            max
        } else {
            input
        },
{
    num::clamp(input, min, max)
}

/// The clamped horizontal candidate neighborhood of an in-bounds
/// center, on the given vertical layer, in row-major order.
fn footprint_inds(ci: usize, cj: usize, layer: usize, ni: usize, nj: usize) -> (r: Vec<BlockIndex>)
    requires
        ci < ni,
        cj < nj,
    ensures
        r@ == footprint(ci as int, cj as int, layer as int, ni as int, nj as int),
{
    let i_low = clamp_i128(ci as i128 - 1, 0, ni as i128) as usize;
    let i_high = clamp_i128(ci as i128 + 2, 0, ni as i128) as usize;
    let j_low = clamp_i128(cj as i128 - 1, 0, nj as i128) as usize;
    let j_high = clamp_i128(cj as i128 + 2, 0, nj as i128) as usize;
    assert(i_low == fp_lo(ci as int) && i_high == fp_hi(ci as int, ni as int) && j_low == fp_lo(
        cj as int,
    ) && j_high == fp_hi(cj as int, nj as int));

    let ghost fp = footprint(ci as int, cj as int, layer as int, ni as int, nj as int);
    let ghost w = j_high - j_low;
    proof {
        lemma_footprint_props(ci as int, cj as int, layer as int, ni as int, nj as int);
    }

    let mut out: Vec<BlockIndex> = Vec::new();
    let mut i = i_low;
    proof {
        assert((i as int - i_low as int) * w == 0) by (nonlinear_arith)
            requires
                i == i_low,
        ;
        assert(out@ =~= fp.subrange(0, 0));
    }
    while i < i_high
        invariant
            i_low <= i <= i_high,
            i_low == fp_lo(ci as int),
            i_high == fp_hi(ci as int, ni as int),
            j_low == fp_lo(cj as int),
            j_high == fp_hi(cj as int, nj as int),
            ci < ni,
            cj < nj,
            w == j_high - j_low,
            fp == footprint(ci as int, cj as int, layer as int, ni as int, nj as int),
            fp.len() == (i_high - i_low) * w,
            out@.len() == (i - i_low) * w,
            out@ == fp.subrange(0, (i - i_low) * w),
        decreases i_high - i,
    {
        proof {
            assert((i - i_low) * w <= (i + 1 - i_low) * w <= (i_high - i_low) * w)
                by (nonlinear_arith)
                requires
                    i_low <= i < i_high,
                    w >= 0,
            ;
        }
        let mut j = j_low;
        while j < j_high
            invariant
                i_low <= i < i_high,
                j_low <= j <= j_high,
                i_low == fp_lo(ci as int),
                i_high == fp_hi(ci as int, ni as int),
                j_low == fp_lo(cj as int),
                j_high == fp_hi(cj as int, nj as int),
                ci < ni,
                cj < nj,
                w == j_high - j_low,
                fp == footprint(ci as int, cj as int, layer as int, ni as int, nj as int),
                fp.len() == (i_high - i_low) * w,
                (i + 1 - i_low) * w <= fp.len(),
                out@.len() == (i - i_low) * w + (j - j_low),
                out@ == fp.subrange(0, (i - i_low) * w + (j - j_low)),
            decreases j_high - j,
        {
            let ghost t = (i - i_low) * w + (j - j_low);
            proof {
                assert(0 <= t && t + 1 <= (i + 1 - i_low) * w) by (nonlinear_arith)
                    requires
                        t == (i - i_low) * w + (j - j_low),
                        i_low <= i,
                        j_low <= j < j_high,
                        w == j_high - j_low,
                ;
                lemma_fundamental_div_mod_converse(t, w, i - i_low, j - j_low);
                assert(fp[t] == (BlockIndex { i, j, k: layer }));
            }
            out.push(BlockIndex { i, j, k: layer });
            proof {
                assert(out@ =~= fp.subrange(0, t + 1));
            }
            j = j + 1;
        }
        proof {
            assert((i + 1 - i_low) * w == (i - i_low) * w + (j_high - j_low)) by (nonlinear_arith)
                requires
                    w == j_high - j_low,
            ;
        }
        i = i + 1;
    }
    proof {
        assert(out@ =~= fp);
    }
    out
}

/// A dependence strategy: a pure function from a model and a center
/// index to the ordered list of related indices.
pub trait BlockDependenceInterface<B: BlockInterface>: Sized {
    /// The index list the strategy yields, as the contracts see it.
    spec fn spec_inds(&self, mdl: &BlockModel<B>, ind: BlockIndex) -> Seq<
        BlockIndex,
    >;

    /// Computes the dependence indices of `ind` inside `mdl`.
    fn inds(&self, mdl: &BlockModel<B>, ind: BlockIndex) -> (r: Vec<BlockIndex>)
        requires
            mdl.wf(),
            mdl.in_bounds(ind),
        ensures
            r@ == self.spec_inds(mdl, ind),
    ;
}

/// Predecessors: the whole clamped footprint one layer below the
/// center (`k + 1`), with no occupancy filter.
#[derive(Copy, Clone, Debug, Default, Hash)]
pub struct SquarePreds;

/// Successors: the whole clamped footprint one layer above the center
/// (`k - 1`), with no occupancy filter.
pub struct SquareSuccs;

/// Adjacency: the occupied cells of the clamped footprint on the
/// center's own layer, the center itself included.
pub struct SquareAdj;

impl<B: BlockInterface> BlockDependenceInterface<B> for SquarePreds {
    open spec fn spec_inds(&self, mdl: &BlockModel<B>, ind: BlockIndex) -> Seq<
        BlockIndex,
    > {
        if ind.k + 1 >= mdl.num_k() {
            Seq::empty()
        } else {
            footprint(ind.i as int, ind.j as int, ind.k + 1, mdl.num_i(), mdl.num_j())
        }
    }

    fn inds(&self, mdl: &BlockModel<B>, ind: BlockIndex) -> (r: Vec<
        BlockIndex,
    >) {
        if ind.k >= mdl.dim_k - 1 {
            let r: Vec<BlockIndex> = Vec::new();
            assert(r@ =~= self.spec_inds(mdl, ind));
            return r;
        }
        footprint_inds(ind.i, ind.j, ind.k + 1, mdl.dim_i, mdl.dim_j)
    }
}

impl<B: BlockInterface> BlockDependenceInterface<B> for SquareSuccs {
    open spec fn spec_inds(&self, mdl: &BlockModel<B>, ind: BlockIndex) -> Seq<
        BlockIndex,
    > {
        if ind.k == 0 {
            Seq::empty()
        } else {
            footprint(ind.i as int, ind.j as int, ind.k - 1, mdl.num_i(), mdl.num_j())
        }
    }

    fn inds(&self, mdl: &BlockModel<B>, ind: BlockIndex) -> (r: Vec<
        BlockIndex,
    >) {
        if ind.k == 0 {
            let r: Vec<BlockIndex> = Vec::new();
            assert(r@ =~= self.spec_inds(mdl, ind));
            return r;
        }
        footprint_inds(ind.i, ind.j, ind.k - 1, mdl.dim_i, mdl.dim_j)
    }
}

/// The occupancy predicate of a model, used by the adjacency filter.
pub open spec fn occupied<B: BlockInterface>(mdl: &BlockModel<B>) -> spec_fn(BlockIndex) -> bool {
    |bi: BlockIndex| mdl.cell_at(bi) is Some
}

impl<B: BlockInterface> BlockDependenceInterface<B> for SquareAdj {
    open spec fn spec_inds(&self, mdl: &BlockModel<B>, ind: BlockIndex) -> Seq<
        BlockIndex,
    > {
        footprint(ind.i as int, ind.j as int, ind.k as int, mdl.num_i(), mdl.num_j()).filter(
            occupied(mdl),
        )
    }

    fn inds(&self, mdl: &BlockModel<B>, ind: BlockIndex) -> (r: Vec<
        BlockIndex,
    >) {
        let cands = footprint_inds(ind.i, ind.j, ind.k, mdl.dim_i, mdl.dim_j);
        let ghost fp = footprint(ind.i as int, ind.j as int, ind.k as int, mdl.num_i(), mdl.num_j());
        proof {
            lemma_footprint_props(
                ind.i as int,
                ind.j as int,
                ind.k as int,
                mdl.num_i(),
                mdl.num_j(),
            );
            assert(fp.subrange(0, 0) =~= Seq::<BlockIndex>::empty());
            assert(Seq::<BlockIndex>::empty().filter(occupied(mdl)) =~= Seq::<
                BlockIndex,
            >::empty()) by {
                reveal(Seq::filter);
            }
        }
        let n = cands.len();
        let mut out: Vec<BlockIndex> = Vec::new();
        let mut t: usize = 0;
        while t < n
            invariant
                t <= n,
                mdl.wf(),
                mdl.in_bounds(ind),
                n == cands@.len(),
                cands@ == fp,
                fp == footprint(ind.i as int, ind.j as int, ind.k as int, mdl.num_i(), mdl.num_j()),
                forall|x: int|
                    0 <= x < fp.len() ==> (#[trigger] fp[x]).i < mdl.num_i() && fp[x].j
                        < mdl.num_j() && fp[x].k == ind.k,
                out@ == fp.subrange(0, t as int).filter(occupied(mdl)),
            decreases n - t,
        {
            let c = cands[t];
            if mdl.block(c).is_some() {
                out.push(c);
            }
            proof {
                let pre = fp.subrange(0, t as int);
                let cur = fp.subrange(0, t + 1);
                assert(cur.drop_last() =~= pre);
                assert(cur.last() == c);
                assert(cur.filter(occupied(mdl)) == if occupied(mdl)(c) {
                    pre.filter(occupied(mdl)).push(c)
                } else {
                    pre.filter(occupied(mdl))
                }) by {
                    reveal(Seq::filter);
                }
            }
            t = t + 1;
        }
        proof {
            assert(fp.subrange(0, n as int) =~= fp);
        }
        out
    }
}

/// Predecessors of a center on the topmost vertical layer are empty,
/// and successors of a center on the bottom layer are empty.
pub proof fn lemma_boundary_layers_empty<B: BlockInterface>(mdl: &BlockModel<B>, ind: BlockIndex)
    ensures
        ind.k + 1 >= mdl.num_k() ==> SquarePreds.spec_inds(mdl, ind) == Seq::<BlockIndex>::empty(),
        ind.k == 0 ==> SquareSuccs.spec_inds(mdl, ind) == Seq::<BlockIndex>::empty(),
{
}

/// Adjacency lists only occupied cells, and lists the center itself
/// exactly when the center's own cell is occupied.
pub proof fn lemma_adjacency_occupied<B: BlockInterface>(mdl: &BlockModel<B>, ind: BlockIndex)
    requires
        mdl.wf(),
        mdl.in_bounds(ind),
    ensures
        forall|t: int|
            0 <= t < SquareAdj.spec_inds(mdl, ind).len() ==> mdl.cell_at(
                #[trigger] SquareAdj.spec_inds(mdl, ind)[t],
            ) is Some,
        mdl.cell_at(ind) is Some <==> SquareAdj.spec_inds(mdl, ind).contains(ind),
{
    let fp = footprint(ind.i as int, ind.j as int, ind.k as int, mdl.num_i(), mdl.num_j());
    let pred = occupied(mdl);
    let out = SquareAdj.spec_inds(mdl, ind);
    assert(out == fp.filter(pred));
    assert forall|t: int| 0 <= t < out.len() implies mdl.cell_at(#[trigger] out[t]) is Some by {
        fp.lemma_filter_pred(pred, t);
    }
    lemma_footprint_props(ind.i as int, ind.j as int, ind.k as int, mdl.num_i(), mdl.num_j());
    let tc = (ind.i - fp_lo(ind.i as int)) * (fp_hi(ind.j as int, mdl.num_j()) - fp_lo(
        ind.j as int,
    )) + (ind.j - fp_lo(ind.j as int));
    assert(fp[tc] == ind);
    if mdl.cell_at(ind) is Some {
        fp.lemma_filter_contains(pred, tc);
    }
    if out.contains(ind) {
        let t = choose|t: int| 0 <= t < out.len() && out[t] == ind;
        fp.lemma_filter_pred(pred, t);
    }
}

impl<B: BlockInterface> BlockModel<B> {
    /// The grid extent along each axis, as `(i, j, k)` cell counts.
    pub fn extents(&self) -> (e: (usize, usize, usize))
        ensures
            e.0 == self.num_i(),
            e.1 == self.num_j(),
            e.2 == self.num_k(),
    {
        (self.dim_i, self.dim_j, self.dim_k)
    }

    /// Delegates the neighborhood computation to a dependence
    /// strategy.
    pub fn dependent_block_inds<BDI: BlockDependenceInterface<B>>(
        &self,
        ind: BlockIndex,
        bdi: BDI,
    ) -> (r: Vec<BlockIndex>)
        requires
            self.wf(),
            self.in_bounds(ind),
        ensures
            r@ == bdi.spec_inds(self, ind),
    {
        bdi.inds(self, ind)
    }
}

} // verus!
