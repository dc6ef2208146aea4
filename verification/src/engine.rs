//! The sampling engine's integer half: grid density, palette binning and
//! the parallel fold/merge over columns.
//!
//! The engine works on grid coordinates.  The front end evaluates the
//! escape-time kernel over the sample grid (that part is floating point)
//! and hands the iteration counts in here, one vector per column; the
//! engine partitions the samples into palette buckets — in parallel, one
//! private result per column, merged bucket-by-bucket afterwards — and
//! hands back, per bucket, the grid positions to paint.

use vstd::prelude::*;

use rayon::iter::IndexedParallelIterator;
use rayon::iter::IntoParallelRefIterator;
use rayon::iter::ParallelIterator;

use crate::geom::Rect;

verus! {

broadcast use vstd::std_specs::vec::group_vec_axioms;

/// Horizontal samples for a pane `width` cells wide: two addressable
/// points per cell, and at least ten so tiny panes stay usable.
pub open spec fn spec_density_x(width: u16) -> u32 {
    if 2 * width >= 10 {
        (2 * width) as u32
    } else {
        10
    }
}

/// Vertical samples for a pane `height` cells tall: four addressable
/// points per cell, with the same floor of ten.
pub open spec fn spec_density_y(height: u16) -> u32 {
    if 4 * height >= 10 {
        (4 * height) as u32
    } else {
        10
    }
}

/// The sample-grid size for a pane rectangle.
pub fn sample_density(area: Rect) -> (d: (u32, u32))
    ensures
        d.0 == spec_density_x(area.width),
        d.1 == spec_density_y(area.height),
{
    let dx = (area.width as u32) * 2;
    let dy = (area.height as u32) * 4;
    (
        if dx >= 10 {
            dx
        } else {
            10
        },
        if dy >= 10 {
            dy
        } else {
            10
        },
    )
}

/// One empty row list per palette bucket.
pub open spec fn empty_buckets(palette_len: int) -> Seq<Seq<u32>> {
    Seq::new(palette_len as nat, |k: int| Seq::<u32>::empty())
}

/// The buckets of one column of iteration counts: row `j` lands in bucket
/// `col[j] % palette_len` when `col[j] < max_iters`; a row that reached
/// the cap is interior and lands nowhere.
pub open spec fn bin_column_spec(col: Seq<u32>, max_iters: u32, palette_len: int) -> Seq<Seq<u32>>
    decreases col.len(),
{
    if col.len() == 0 {
        empty_buckets(palette_len)
    } else {
        let prev = bin_column_spec(col.drop_last(), max_iters, palette_len);
        let j = col.len() - 1;
        let it = col.last();
        if it < max_iters {
            let k = it as int % palette_len;
            prev.update(k, prev[k].push(j as u32))
        } else {
            prev
        }
    }
}

/// There is one bucket per palette entry.
pub proof fn lemma_bin_column_len(col: Seq<u32>, max_iters: u32, palette_len: int)
    requires
        palette_len >= 1,
    ensures
        bin_column_spec(col, max_iters, palette_len).len() == palette_len,
    decreases col.len(),
{
    if col.len() > 0 {
        lemma_bin_column_len(col.drop_last(), max_iters, palette_len);
        let prev = bin_column_spec(col.drop_last(), max_iters, palette_len);
        if col.last() < max_iters {
            let k = col.last() as int % palette_len;
            assert(0 <= k < palette_len);
            assert(bin_column_spec(col, max_iters, palette_len) == prev.update(
                k,
                prev[k].push((col.len() - 1) as u32),
            ));
        }
    }
}

/// Bins one column of iteration counts into palette buckets of row
/// indices.
pub fn bin_column(col: &Vec<u32>, max_iters: u32, palette_len: usize) -> (r: Vec<Vec<u32>>)
    requires
        palette_len >= 1,
        col@.len() <= u32::MAX,
    ensures
        r@.len() == palette_len,
        forall|k: int|
            0 <= k < palette_len ==> #[trigger] r@[k]@ == bin_column_spec(
                col@,
                max_iters,
                palette_len as int,
            )[k],
{
    let mut buckets: Vec<Vec<u32>> = Vec::new();
    while buckets.len() < palette_len
        invariant
            buckets@.len() <= palette_len,
            forall|k: int| 0 <= k < buckets@.len() ==> #[trigger] buckets@[k]@ == Seq::<
                u32,
            >::empty(),
        decreases palette_len - buckets.len(),
    {
        buckets.push(Vec::new());
    }
    let ghost plen = palette_len as int;
    let mut j: usize = 0;
    #[verifier::loop_isolation(false)]
    while j < col.len()
        invariant
            j <= col@.len(),
            buckets@.len() == palette_len,
            forall|k: int|
                0 <= k < plen ==> #[trigger] buckets@[k]@ == bin_column_spec(
                    col@.subrange(0, j as int),
                    max_iters,
                    plen,
                )[k],
        decreases col.len() - j,
    {
        let ghost pre = col@.subrange(0, j as int);
        let ghost cur = col@.subrange(0, j + 1);
        proof {
            assert(cur.drop_last() =~= pre);
            assert(cur.last() == col@[j as int]);
        }
        let it = col[j];
        if it < max_iters {
            let k = (it as usize) % palette_len;
            let mut bucket: Vec<u32> = Vec::new();
            buckets.set_and_swap(k, &mut bucket);
            bucket.push(j as u32);
            buckets.set_and_swap(k, &mut bucket);
            proof {
                let step = bin_column_spec(cur, max_iters, plen);
                let prev = bin_column_spec(pre, max_iters, plen);
                lemma_bin_column_len(pre, max_iters, plen);
                lemma_bin_column_len(cur, max_iters, plen);
                assert(step == prev.update(k as int, prev[k as int].push(j as u32)));
                assert(buckets@[k as int]@ == prev[k as int].push(j as u32));
                assert forall|q: int| 0 <= q < plen implies #[trigger] buckets@[q]@ == step[q] by {
                    if q != k as int {
                        assert(buckets@[q]@ == prev[q]);
                        assert(step[q] == prev[q]);
                    }
                }
            }
        } else {
            proof {
                assert(bin_column_spec(cur, max_iters, plen) == bin_column_spec(
                    pre,
                    max_iters,
                    plen,
                ));
            }
        }
        j = j + 1;
    }
    proof {
        assert(col@.subrange(0, col@.len() as int) =~= col@);
    }
    buckets
}

/// Bins every column in parallel.
///
/// Relies on rayon's `par_iter().map(..).collect_into_vec(..)`: the
/// closure (the library's own verified `bin_column`) is applied to every
/// column and the results are collected in the columns' original order.
#[verifier::external_body]
fn bin_columns_par(grid: &Vec<Vec<u32>>, max_iters: u32, palette_len: usize) -> (r: Vec<
    Vec<Vec<u32>>,
>)
    requires
        palette_len >= 1,
        forall|i: int| 0 <= i < grid@.len() ==> #[trigger] grid@[i]@.len() <= u32::MAX,
    ensures
        r@.len() == grid@.len(),
        forall|i: int| 0 <= i < grid@.len() ==> #[trigger] r@[i]@.len() == palette_len,
        forall|i: int, k: int|
            0 <= i < grid@.len() && 0 <= k < palette_len ==> #[trigger] r@[i]@[k]@
                == bin_column_spec(grid@[i]@, max_iters, palette_len as int)[k],
{
    let mut out: Vec<Vec<Vec<u32>>> = Vec::new();
    grid.par_iter().map(|col| bin_column(col, max_iters, palette_len)).collect_into_vec(&mut out);
    out
}

/// The grid positions painted with bucket `k`, in column-major order:
/// column by column, each column's rows in increasing order.
pub open spec fn grid_bucket(
    grid: Seq<Seq<u32>>,
    max_iters: u32,
    palette_len: int,
    k: int,
) -> Seq<(u32, u32)>
    decreases grid.len(),
{
    if grid.len() == 0 {
        Seq::empty()
    } else {
        let i = grid.len() - 1;
        grid_bucket(grid.drop_last(), max_iters, palette_len, k) + bin_column_spec(
            grid.last(),
            max_iters,
            palette_len,
        )[k].map_values(|j: u32| (i as u32, j))
    }
}

/// The view of a grid of iteration counts.
pub open spec fn grid_view(grid: Seq<Vec<u32>>) -> Seq<Seq<u32>> {
    grid.map_values(|c: Vec<u32>| c@)
}

/// Partitions a whole grid of iteration counts into palette buckets of
/// grid positions `(column, row)`.
///
/// The sampling runs in parallel: every column is folded into its own
/// private buckets, and the merge concatenates same-index buckets in
/// column order, so bucket identity is preserved exactly.
pub fn compute_batches(grid: &Vec<Vec<u32>>, max_iters: u32, palette_len: usize) -> (r: Vec<
    Vec<(u32, u32)>,
>)
    requires
        palette_len >= 1,
        grid@.len() <= u32::MAX,
        forall|i: int| 0 <= i < grid@.len() ==> #[trigger] grid@[i]@.len() <= u32::MAX,
    ensures
        r@.len() == palette_len,
        forall|k: int|
            0 <= k < palette_len ==> #[trigger] r@[k]@ == grid_bucket(
                grid_view(grid@),
                max_iters,
                palette_len as int,
                k,
            ),
{
    let parts = bin_columns_par(grid, max_iters, palette_len);
    let ghost plen = palette_len as int;
    let ghost gv = grid_view(grid@);
    let mut out: Vec<Vec<(u32, u32)>> = Vec::new();
    while out.len() < palette_len
        invariant
            out@.len() <= palette_len,
            forall|k: int| 0 <= k < out@.len() ==> #[trigger] out@[k]@ == Seq::<
                (u32, u32),
            >::empty(),
        decreases palette_len - out.len(),
    {
        out.push(Vec::new());
    }
    let mut i: usize = 0;
    #[verifier::loop_isolation(false)]
    while i < parts.len()
        invariant
            i <= parts@.len(),
            parts@.len() == grid@.len(),
            out@.len() == palette_len,
            gv.len() == grid@.len(),
            forall|q: int| 0 <= q < grid@.len() ==> #[trigger] gv[q] == grid@[q]@,
            forall|k: int|
                0 <= k < plen ==> #[trigger] out@[k]@ == grid_bucket(
                    gv.subrange(0, i as int),
                    max_iters,
                    plen,
                    k,
                ),
        decreases parts.len() - i,
    {
        let ghost pre = gv.subrange(0, i as int);
        let ghost cur = gv.subrange(0, i + 1);
        proof {
            assert(cur.drop_last() =~= pre);
            assert(cur.last() == gv[i as int]);
        }
        let mut k: usize = 0;
        #[verifier::loop_isolation(false)]
        while k < palette_len
            invariant
                k <= palette_len,
                out@.len() == palette_len,
                i < parts@.len(),
                forall|q: int|
                    0 <= q < k ==> #[trigger] out@[q]@ == grid_bucket(cur, max_iters, plen, q),
                forall|q: int|
                    k <= q < plen ==> #[trigger] out@[q]@ == grid_bucket(pre, max_iters, plen, q),
            decreases palette_len - k,
        {
            let rows = &parts[i];
            let mut bucket: Vec<(u32, u32)> = Vec::new();
            out.set_and_swap(k, &mut bucket);
            extend_bucket(&mut bucket, &rows[k], i as u32);
            out.set_and_swap(k, &mut bucket);
            proof {
                assert(grid_bucket(cur, max_iters, plen, k as int) == grid_bucket(
                    pre,
                    max_iters,
                    plen,
                    k as int,
                ) + bin_column_spec(gv[i as int], max_iters, plen)[k as int].map_values(
                    |j: u32| (i as u32, j),
                ));
            }
            k = k + 1;
        }
        i = i + 1;
    }
    proof {
        assert(gv.subrange(0, gv.len() as int) =~= gv);
    }
    out
}

/// Bucket assignment, per column: row `j` appears in bucket `k` iff its
/// sample escaped (`col[j] < max_iters`) and its escape count falls in
/// that bucket (`col[j] % palette_len == k`).  A sample that reached the
/// cap appears in no bucket.
pub proof fn lemma_bin_column_membership(col: Seq<u32>, max_iters: u32, palette_len: int, k: int)
    requires
        palette_len >= 1,
        0 <= k < palette_len,
        col.len() <= u32::MAX,
    ensures
        forall|j: int|
            0 <= j < col.len() ==> (bin_column_spec(col, max_iters, palette_len)[k].contains(
                j as u32,
            ) <==> (col[j] < max_iters && #[trigger] col[j] as int % palette_len == k)),
        forall|x: u32|
            bin_column_spec(col, max_iters, palette_len)[k].contains(x) ==> x < col.len(),
    decreases col.len(),
{
    lemma_bin_column_len(col, max_iters, palette_len);
    if col.len() > 0 {
        let head = col.drop_last();
        lemma_bin_column_membership(head, max_iters, palette_len, k);
        lemma_bin_column_len(head, max_iters, palette_len);
        let prev = bin_column_spec(head, max_iters, palette_len);
        let step = bin_column_spec(col, max_iters, palette_len);
        let jl = col.len() - 1;
        assert(forall|j: int| 0 <= j < jl ==> col[j] == head[j]);
        if col.last() < max_iters {
            let kl = col.last() as int % palette_len;
            assert(step == prev.update(kl, prev[kl].push(jl as u32)));
            if kl == k {
                assert(step[k] == prev[k].push(jl as u32));
                assert forall|x: u32| step[k].contains(x) implies x < col.len() by {
                    let q = choose|q: int| 0 <= q < step[k].len() && step[k][q] == x;
                    if q < prev[k].len() {
                        assert(prev[k].contains(x));
                    }
                }
                assert forall|j: int| 0 <= j < col.len() implies (step[k].contains(j as u32)
                    <==> (col[j] < max_iters && #[trigger] col[j] as int % palette_len
                    == k)) by {
                    if j < jl {
                        if prev[k].contains(j as u32) {
                            let q = choose|q: int|
                                0 <= q < prev[k].len() && prev[k][q] == j as u32;
                            assert(step[k][q] == j as u32);
                        }
                        if step[k].contains(j as u32) {
                            let q = choose|q: int|
                                0 <= q < step[k].len() && step[k][q] == j as u32;
                            assert(q < prev[k].len());
                            assert(prev[k].contains(j as u32));
                        }
                    } else {
                        assert(step[k][step[k].len() - 1] == jl as u32);
                        assert(step[k].contains(jl as u32));
                    }
                }
            } else {
                assert(step[k] == prev[k]);
                assert forall|j: int| 0 <= j < col.len() implies (step[k].contains(j as u32)
                    <==> (col[j] < max_iters && #[trigger] col[j] as int % palette_len
                    == k)) by {
                    if j == jl {
                        if step[k].contains(j as u32) {
                            assert(prev[k].contains(jl as u32));
                            assert((jl as u32) < head.len());
                        }
                    }
                }
            }
        } else {
            assert(step == prev);
            assert forall|j: int| 0 <= j < col.len() implies (step[k].contains(j as u32) <==> (
            col[j] < max_iters && #[trigger] col[j] as int % palette_len == k)) by {
                if j == jl {
                    if step[k].contains(j as u32) {
                        assert(prev[k].contains(jl as u32));
                        assert((jl as u32) < head.len());
                    }
                }
            }
        }
    }
}

/// Every painted grid position names a column of the grid.
pub proof fn lemma_grid_bucket_cols(grid: Seq<Seq<u32>>, max_iters: u32, palette_len: int, k: int)
    requires
        palette_len >= 1,
        0 <= k < palette_len,
    ensures
        forall|x: (u32, u32)|
            grid_bucket(grid, max_iters, palette_len, k).contains(x) ==> (x.0 as int)
                < grid.len(),
    decreases grid.len(),
{
    if grid.len() > 0 {
        let head = grid.drop_last();
        lemma_grid_bucket_cols(head, max_iters, palette_len, k);
        let i0 = grid.len() - 1;
        let part = bin_column_spec(grid.last(), max_iters, palette_len)[k].map_values(
            |j: u32| (i0 as u32, j),
        );
        let whole = grid_bucket(grid, max_iters, palette_len, k);
        assert(whole == grid_bucket(head, max_iters, palette_len, k) + part);
        assert forall|x: (u32, u32)| whole.contains(x) implies (x.0 as int) < grid.len() by {
            crate::tree::lemma_contains_add(
                grid_bucket(head, max_iters, palette_len, k),
                part,
                x,
            );
            if part.contains(x) {
                let q = choose|q: int| 0 <= q < part.len() && part[q] == x;
            }
        }
    }
}

/// Bucket assignment, whole grid: the position `(i, j)` is painted with
/// bucket `k` iff its sample escaped and its escape count falls in that
/// bucket; a sample that reached the iteration cap is painted nowhere.
pub proof fn lemma_grid_bucket_membership(
    grid: Seq<Seq<u32>>,
    max_iters: u32,
    palette_len: int,
    k: int,
)
    requires
        palette_len >= 1,
        0 <= k < palette_len,
        grid.len() <= u32::MAX,
        forall|i: int| 0 <= i < grid.len() ==> #[trigger] grid[i].len() <= u32::MAX,
    ensures
        forall|i: int, j: int|
            0 <= i < grid.len() && 0 <= j < grid[i].len() ==> (grid_bucket(
                grid,
                max_iters,
                palette_len,
                k,
            ).contains(((i as u32, j as u32))) <==> (grid[i][j] < max_iters
                && #[trigger] grid[i][j] as int % palette_len == k)),
    decreases grid.len(),
{
    if grid.len() > 0 {
        let head = grid.drop_last();
        assert(forall|i: int| 0 <= i < head.len() ==> head[i] == grid[i]);
        lemma_grid_bucket_membership(head, max_iters, palette_len, k);
        lemma_grid_bucket_cols(head, max_iters, palette_len, k);
        let i0 = grid.len() - 1;
        lemma_bin_column_membership(grid.last(), max_iters, palette_len, k);
        let bucket = bin_column_spec(grid.last(), max_iters, palette_len)[k];
        let part = bucket.map_values(|j: u32| (i0 as u32, j));
        let hw = grid_bucket(head, max_iters, palette_len, k);
        let whole = grid_bucket(grid, max_iters, palette_len, k);
        assert(whole == hw + part);
        assert forall|i: int, j: int|
            0 <= i < grid.len() && 0 <= j < grid[i].len() implies (whole.contains(
            ((i as u32, j as u32)),
        ) <==> (grid[i][j] < max_iters && #[trigger] grid[i][j] as int % palette_len
            == k)) by {
            let x = (i as u32, j as u32);
            crate::tree::lemma_contains_add(hw, part, x);
            if i < i0 {
                // The last column contributes nothing for earlier columns.
                assert(!part.contains(x)) by {
                    if part.contains(x) {
                        let q = choose|q: int| 0 <= q < part.len() && part[q] == x;
                        assert(part[q].0 == i0 as u32);
                    }
                }
                assert(hw.contains(x) <==> (head[i][j] < max_iters && head[i][j] as int
                    % palette_len == k));
            } else {
                // Earlier columns never paint the last column's positions.
                assert(!hw.contains(x));
                assert(part.contains(x) <==> bucket.contains(j as u32)) by {
                    if bucket.contains(j as u32) {
                        let q = choose|q: int| 0 <= q < bucket.len() && bucket[q] == j as u32;
                        assert(part[q] == x);
                    }
                    if part.contains(x) {
                        let q = choose|q: int| 0 <= q < part.len() && part[q] == x;
                        assert(bucket[q] == j as u32);
                        assert(bucket.contains(j as u32));
                    }
                }
            }
        }
    }
}

/// Appends `(col, j)` for every row `j` listed in `rows`.
fn extend_bucket(bucket: &mut Vec<(u32, u32)>, rows: &Vec<u32>, col: u32)
    ensures
        final(bucket)@ == old(bucket)@ + rows@.map_values(|j: u32| ((col, j))),
{
    let ghost f = |j: u32| ((col, j));
    let mut n: usize = 0;
    #[verifier::loop_isolation(false)]
    while n < rows.len()
        invariant
            n <= rows@.len(),
            bucket@ == old(bucket)@ + rows@.subrange(0, n as int).map_values(f),
        decreases rows.len() - n,
    {
        bucket.push((col, rows[n]));
        proof {
            let a = old(bucket)@;
            let b = rows@.subrange(0, n as int);
            let b1 = rows@.subrange(0, n + 1);
            assert(b1 =~= b.push(rows@[n as int]));
            assert(f(rows@[n as int]) == ((col, rows@[n as int])));
            assert(b1.map_values(f) =~= b.map_values(f).push(f(rows@[n as int])));
            assert(bucket@ =~= a + b1.map_values(f));
        }
        n = n + 1;
    }
    proof {
        assert(rows@.subrange(0, rows@.len() as int) =~= rows@);
    }
}

} // verus!
