use vstd::prelude::*;
use vstd::arithmetic::div_mod::lemma_fundamental_div_mod_converse;

verus! {

/// A rectangle of pixels together with the order in which it is visited.
/// On each axis the pixels lie between `start` and `end`, end excluded when
/// `start <= end`, start excluded otherwise; the axis is walked from `start`
/// towards `end`. Columns are the outer loop, rows the inner one.
#[derive(Clone, Copy, Debug, PartialEq, Eq, Structural)]
pub struct Band {
    pub row_start: u32,
    pub row_end: u32,
    pub col_start: u32,
    pub col_end: u32,
}

/// The values from `start` towards `end`: ascending over `[start, end)` when
/// `start <= end`, descending over `[end, start)` otherwise.
pub open spec fn ordered_range(start: u32, end: u32) -> Seq<u32> {
    if start <= end {
        Seq::new((end - start) as nat, |k: int| (start + k) as u32)
    } else {
        Seq::new((start - end) as nat, |k: int| (start - 1 - k) as u32)
    }
}

/// Whether `x` lies in the span of an axis running from `start` towards `end`.
pub open spec fn in_span(start: u32, end: u32, x: int) -> bool {
    if start <= end {
        start <= x < end
    } else {
        end <= x < start
    }
}

/// Whether the band holds pixel `(row, col)`.
pub open spec fn band_contains(b: Band, row: int, col: int) -> bool {
    in_span(b.row_start, b.row_end, row) && in_span(b.col_start, b.col_end, col)
}

/// The band's pixels as `(row, col)` pairs, in visiting order.
pub open spec fn band_seq(b: Band) -> Seq<(u32, u32)> {
    let rows = ordered_range(b.row_start, b.row_end);
    let cols = ordered_range(b.col_start, b.col_end);
    Seq::new(
        rows.len() * cols.len(),
        |k: int| (rows[k % (rows.len() as int)], cols[k / (rows.len() as int)]),
    )
}

/// The values from `start` towards `end`, see `ordered_range`.
pub fn maybe_reverse_range(start: u32, end: u32) -> (r: Vec<u32>)
    ensures
        r@ == ordered_range(start, end),
{
    let mut out: Vec<u32> = Vec::new();
    if start > end {
        let mut x: u32 = start;
        while x > end
            invariant
                end <= x <= start,
                out@.len() == start - x,
                forall|k: int| 0 <= k < out@.len() ==> out@[k] == start - 1 - k,
            decreases x,
        {
            out.push(x - 1);
            x = x - 1;
        }
    } else {
        let mut x: u32 = start;
        while x < end
            invariant
                start <= x <= end,
                out@.len() == x - start,
                forall|k: int| 0 <= k < out@.len() ==> out@[k] == start + k,
            decreases end - x,
        {
            out.push(x);
            x = x + 1;
        }
    }
    assert(out@ =~= ordered_range(start, end));
    out
}

/// Position `ci * n + ri` of a row-inner walk splits back into `ri` and `ci`.
proof fn lemma_split_position(ci: int, ri: int, n: int)
    requires
        0 <= ci,
        0 <= ri < n,
    ensures
        (ci * n + ri) % n == ri,
        (ci * n + ri) / n == ci,
{
    lemma_fundamental_div_mod_converse(ci * n + ri, n, ci, ri);
}

/// The pixels of `b` in visiting order: `maybe_reverse_range` over the
/// columns outside, over the rows inside.
pub fn band_pixels(b: &Band) -> (r: Vec<(u32, u32)>)
    ensures
        r@ == band_seq(*b),
{
    let rows = maybe_reverse_range(b.row_start, b.row_end);
    let cols = maybe_reverse_range(b.col_start, b.col_end);
    let nr = rows.len();
    let mut out: Vec<(u32, u32)> = Vec::new();
    let mut ci: usize = 0;
    while ci < cols.len()
        invariant
            rows@ == ordered_range(b.row_start, b.row_end),
            cols@ == ordered_range(b.col_start, b.col_end),
            nr == rows@.len(),
            ci <= cols@.len(),
            out@.len() == ci * nr,
            forall|k: int|
                0 <= k < out@.len() ==> out@[k] == (rows@[k % (nr as int)], cols@[k / (nr as int)]),
        decreases cols.len() - ci,
    {
        let mut ri: usize = 0;
        while ri < nr
            invariant
                rows@ == ordered_range(b.row_start, b.row_end),
                cols@ == ordered_range(b.col_start, b.col_end),
                nr == rows@.len(),
                ci < cols@.len(),
                ri <= nr,
                out@.len() == ci * nr + ri,
                forall|k: int|
                    0 <= k < out@.len() ==> out@[k] == (rows@[k % (nr as int)], cols@[k / (nr as int)]),
            decreases nr - ri,
        {
            proof {
                lemma_split_position(ci as int, ri as int, nr as int);
            }
            out.push((rows[ri], cols[ci]));
            ri = ri + 1;
        }
        assert((ci + 1) * nr == ci * nr + nr) by (nonlinear_arith);
        ci = ci + 1;
    }
    assert(nr * cols@.len() == cols@.len() * nr) by (nonlinear_arith);
    assert(out@ =~= band_seq(*b));
    out
}

/// A pixel is listed by `band_seq` exactly when the band holds it.
pub proof fn lemma_band_seq_covers(b: Band, row: int, col: int)
    ensures
        band_contains(b, row, col) <==> exists|k: int|
            0 <= k < band_seq(b).len() && band_seq(b)[k].0 == row && band_seq(b)[k].1 == col,
{
    let rows = ordered_range(b.row_start, b.row_end);
    let cols = ordered_range(b.col_start, b.col_end);
    let nr = rows.len() as int;
    let nc = cols.len() as int;
    let s = band_seq(b);
    if band_contains(b, row, col) {
        let ri = if b.row_start <= b.row_end { row - b.row_start } else { b.row_start - 1 - row };
        let ci = if b.col_start <= b.col_end { col - b.col_start } else { b.col_start - 1 - col };
        lemma_split_position(ci, ri, nr);
        assert(ci * nr + ri < nc * nr) by (nonlinear_arith)
            requires 0 <= ci < nc, 0 <= ri < nr;
        assert(nr * nc == nc * nr) by (nonlinear_arith);
        assert(s[ci * nr + ri].0 == row && s[ci * nr + ri].1 == col);
    }
    if exists|k: int| 0 <= k < s.len() && s[k].0 == row && s[k].1 == col {
        let k = choose|k: int| 0 <= k < s.len() && s[k].0 == row && s[k].1 == col;
        assert(nr > 0) by {
            if nr == 0 {
                assert(s.len() == 0) by (nonlinear_arith)
                    requires s.len() == nr * nc, nr == 0;
            }
        }
        vstd::arithmetic::div_mod::lemma_fundamental_div_mod(k, nr);
        assert(0 <= k % nr < nr) by {
            vstd::arithmetic::div_mod::lemma_mod_bound(k, nr);
        }
        assert(0 <= k / nr < nc) by {
            vstd::arithmetic::div_mod::lemma_div_pos_is_pos(k, nr);
            if k / nr >= nc {
                assert(nr * (k / nr) >= nr * nc) by (nonlinear_arith)
                    requires k / nr >= nc, nr > 0;
            }
        }
    }
}


/// Every pixel that a band lists lies in a `width` by `height` field when the
/// band's bounds do.
pub proof fn lemma_band_seq_within(b: Band, width: u32, height: u32)
    requires
        b.row_start <= height && b.row_end <= height,
        b.col_start <= width && b.col_end <= width,
    ensures
        forall|k: int|
            0 <= k < band_seq(b).len() ==> (#[trigger] band_seq(b)[k]).0 < height && band_seq(b)[k].1 < width,
{
    assert forall|k: int| 0 <= k < band_seq(b).len() implies (#[trigger] band_seq(b)[k]).0 < height
        && band_seq(b)[k].1 < width by {
        lemma_band_seq_covers(b, band_seq(b)[k].0 as int, band_seq(b)[k].1 as int);
    }
}

} // verus!
