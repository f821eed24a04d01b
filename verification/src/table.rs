//! Table column balancing: relative column weights from observed
//! content lengths.
//!
//! Every row reports the content-length heuristic of each of its cells;
//! short rows count as padded with empty cells.  Each column's lengths
//! are averaged, the averages are scaled against the largest one times
//! three, and every weight is floored at one relative unit.

use vstd::prelude::*;

verus! {

use vstd::arithmetic::div_mod::lemma_div_by_multiple;
use vstd::arithmetic::div_mod::lemma_div_is_ordered;

/// The larger of two integers.
pub open spec fn imax(a: int, b: int) -> int {
    if a > b {
        a
    } else {
        b
    }
}

/// The widest row length from position `i` on.
pub open spec fn max_cols_from(rows: Seq<Seq<u64>>, i: int) -> int
    decreases rows.len() - i,
{
    if i < 0 || i >= rows.len() {
        0
    } else {
        imax(rows[i].len() as int, max_cols_from(rows, i + 1))
    }
}

/// The number of columns of the padded table: its widest row.
pub open spec fn max_cols(rows: Seq<Seq<u64>>) -> int {
    max_cols_from(rows, 0)
}

/// The heuristic width of the cell at row `r`, column `c`; a missing
/// cell pads as zero.
pub open spec fn cell_w(rows: Seq<Seq<u64>>, r: int, c: int) -> int {
    if 0 <= r < rows.len() && 0 <= c < rows[r].len() {
        rows[r][c] as int
    } else {
        0
    }
}

/// The sum of column `c` over the rows from position `i` on.
pub open spec fn col_sum_from(rows: Seq<Seq<u64>>, c: int, i: int) -> int
    decreases rows.len() - i,
{
    if i < 0 || i >= rows.len() {
        0
    } else {
        cell_w(rows, i, c) + col_sum_from(rows, c, i + 1)
    }
}

/// The arithmetic mean of column `c`, over all rows, rounded down.
pub open spec fn col_mean(rows: Seq<Seq<u64>>, c: int) -> int {
    if rows.len() == 0 {
        0
    } else {
        col_sum_from(rows, c, 0) / rows.len() as int
    }
}

/// The largest column mean from column `c` on, floored at one.
pub open spec fn max_mean_from(rows: Seq<Seq<u64>>, c: int) -> int
    decreases max_cols(rows) - c,
{
    if c < 0 || c >= max_cols(rows) {
        1
    } else {
        imax(col_mean(rows, c), max_mean_from(rows, c + 1))
    }
}

/// The weight of column `c`: its mean scaled by three against the
/// largest mean, floored at one relative unit.
pub open spec fn weight_spec(rows: Seq<Seq<u64>>, c: int) -> int {
    imax(3 * col_mean(rows, c) / max_mean_from(rows, 0), 1)
}

/// Balance the columns of a table: one weight per column of the widest
/// row, each the column's mean content length scaled by three against
/// the largest column mean and floored at one.
#[verifier::loop_isolation(false)]
pub fn column_weights(widths: &Vec<Vec<u64>>) -> (r: Vec<u64>)
    ensures
        r@.len() == max_cols(widths.deep_view()),
        forall|c: int| 0 <= c < r@.len() ==> r@[c] as int == weight_spec(widths.deep_view(), c),
{
    let ghost rows = widths.deep_view();
    let nr = widths.len();
    proof {
        assert(rows.len() == nr);
        assert(forall|k: int| 0 <= k < nr ==> rows[k].len() == widths@[k]@.len());
    }
    let mut ncols: usize = 0;
    let mut i: usize = 0;
    while i < nr
        invariant
            i <= nr,
            imax(ncols as int, max_cols_from(rows, i as int)) == max_cols(rows),
            ncols <= usize::MAX,
        decreases nr - i,
    {
        let m = widths[i].len();
        if m > ncols {
            ncols = m;
        }
        i = i + 1;
    }
    proof {
        assert(max_cols_from(rows, nr as int) == 0);
        assert(ncols as int == max_cols(rows));
    }
    let mut out: Vec<u64> = Vec::new();
    if ncols == 0 {
        return out;
    }
    proof {
        assert(nr > 0);
    }
    let mut means: Vec<u128> = Vec::new();
    let mut c: usize = 0;
    while c < ncols
        invariant
            c <= ncols,
            means@.len() == c,
            forall|k: int| 0 <= k < c ==> means@[k] as int == col_mean(rows, k),
            forall|k: int| 0 <= k < c ==> means@[k] <= 0xffff_ffff_ffff_ffffu128,
        decreases ncols - c,
    {
        let mut sum: u128 = 0;
        let mut ri: usize = 0;
        while ri < nr
            invariant
                ri <= nr,
                sum as int + col_sum_from(rows, c as int, ri as int) == col_sum_from(
                    rows,
                    c as int,
                    0,
                ),
                sum as int <= ri as int * 0xffff_ffff_ffff_ffff,
            decreases nr - ri,
        {
            let row = &widths[ri];
            let cell: u64 = if c < row.len() {
                row[c]
            } else {
                0
            };
            proof {
                assert(cell as int == cell_w(rows, ri as int, c as int));
            }
            sum = sum + cell as u128;
            ri = ri + 1;
        }
        proof {
            assert(col_sum_from(rows, c as int, nr as int) == 0);
        }
        let mean: u128 = sum / nr as u128;
        proof {
            let s = sum as int;
            let n = nr as int;
            assert(s <= n * 0xffff_ffff_ffff_ffff);
            lemma_div_is_ordered(s, n * 0xffff_ffff_ffff_ffff, n);
            lemma_div_by_multiple(0xffff_ffff_ffff_ffff, n);
            assert((0xffff_ffff_ffff_ffff * n) / n == 0xffff_ffff_ffff_ffff);
            assert(mean as int == col_mean(rows, c as int));
        }
        means.push(mean);
        c = c + 1;
    }
    let mut mm: u128 = 1;
    let mut c2: usize = 0;
    proof {
        lemma_max_mean_ge_one(rows, 0);
    }
    while c2 < ncols
        invariant
            c2 <= ncols,
            1 <= mm <= 0xffff_ffff_ffff_ffffu128,
            imax(mm as int, max_mean_from(rows, c2 as int)) == max_mean_from(rows, 0),
            means@.len() == ncols,
            forall|k: int| 0 <= k < ncols ==> means@[k] as int == col_mean(rows, k),
            forall|k: int| 0 <= k < ncols ==> means@[k] <= 0xffff_ffff_ffff_ffffu128,
        decreases ncols - c2,
    {
        let v = means[c2];
        if v > mm {
            mm = v;
        }
        c2 = c2 + 1;
    }
    proof {
        assert(max_mean_from(rows, ncols as int) == 1);
        assert(mm as int == max_mean_from(rows, 0));
    }
    let mut c3: usize = 0;
    while c3 < ncols
        invariant
            c3 <= ncols,
            out@.len() == c3,
            forall|k: int| 0 <= k < c3 ==> out@[k] as int == weight_spec(rows, k),
            mm as int == max_mean_from(rows, 0),
            mm >= 1,
            means@.len() == ncols,
            forall|k: int| 0 <= k < ncols ==> means@[k] as int == col_mean(rows, k),
            forall|k: int| 0 <= k < ncols ==> means@[k] <= 0xffff_ffff_ffff_ffffu128,
        decreases ncols - c3,
    {
        let mean = means[c3];
        proof {
            lemma_mean_le_max(rows, c3 as int, ncols as int);
            assert(col_mean(rows, c3 as int) <= max_mean_from(rows, 0));
            assert(3 * mean as int <= 3 * mm as int);
            lemma_div_is_ordered(3 * mean as int, 3 * mm as int, mm as int);
            lemma_div_by_multiple(3, mm as int);
            assert((3 * mm as int) / mm as int == 3);
        }
        let w: u128 = (3 * mean) / mm;
        let w2: u64 = if w < 1 {
            1
        } else {
            w as u64
        };
        proof {
            assert(w as int <= 3);
            assert(w2 as int == weight_spec(rows, c3 as int));
        }
        out.push(w2);
        c3 = c3 + 1;
    }
    out
}

/// Each column mean is bounded by the floored maximum of all of them.
/// The floored maximum of the column means is at least one.
proof fn lemma_max_mean_ge_one(rows: Seq<Seq<u64>>, c: int)
    ensures
        max_mean_from(rows, c) >= 1,
    decreases max_cols(rows) - c,
{
    if 0 <= c < max_cols(rows) {
        lemma_max_mean_ge_one(rows, c + 1);
    }
}

proof fn lemma_mean_le_max(rows: Seq<Seq<u64>>, c: int, ncols: int)
    requires
        0 <= c < ncols,
        ncols == max_cols(rows),
    ensures
        col_mean(rows, c) <= max_mean_from(rows, 0),
{
    lemma_mean_le_max_from(rows, 0, c);
}

proof fn lemma_mean_le_max_from(rows: Seq<Seq<u64>>, lo: int, c: int)
    requires
        0 <= lo <= c < max_cols(rows),
    ensures
        col_mean(rows, c) <= max_mean_from(rows, lo),
    decreases c - lo,
{
    if lo < c {
        lemma_mean_le_max_from(rows, lo + 1, c);
    }
}

} // verus!
