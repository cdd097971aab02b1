//! Grid construction: validating that a flat buffer is square and
//! deriving the column-major view from the row-major one.

use vstd::arithmetic::div_mod::{
    lemma_fundamental_div_mod, lemma_fundamental_div_mod_converse, lemma_mod_pos_bound,
};
use vstd::prelude::*;

verus! {

/// Whether `l` is a perfect square.
pub open spec fn is_square(l: int) -> bool {
    exists|s: int| 0 <= s && #[trigger] (s * s) == l
}

/// The single way grid construction can fail.
#[derive(Clone, Copy, PartialEq, Eq, Structural, Debug)]
pub enum GridError {
    /// The flat buffer's length is not a perfect square.
    InvalidDimension,
}

/// The column-major rewrite of a row-major square buffer: entry
/// `c * size + r` of the result is entry `r * size + c` of `rows`.
pub open spec fn transpose(rows: Seq<u8>, size: nat) -> Seq<u8> {
    Seq::new(
        size * size,
        |d: int| rows[(d % (size as int)) * (size as int) + d / (size as int)],
    )
}

/// A square character grid, kept as two flat buffers so that one 1-D
/// matcher serves both reading directions.
pub struct Grid {
    /// Edge length of the square.
    pub size: usize,
    /// Row-major contents: entry `r * size + c` is row `r`, column `c`.
    pub rows: Vec<u8>,
    /// Column-major contents, derived from `rows` by transposition.
    pub columns: Vec<u8>,
}

impl Grid {
    /// The grid invariant: both buffers hold `size * size` bytes and
    /// `columns` is the transpose of `rows`.
    pub open spec fn wf(&self) -> bool {
        &&& self.rows@.len() == self.size * self.size
        &&& self.columns@ == transpose(self.rows@, self.size as nat)
    }
}

proof fn lemma_square_monotonic(a: int, b: int)
    by (nonlinear_arith)
    requires
        0 <= a <= b,
    ensures
        a * a <= b * b,
{
}

/// Derive the side length of a square grid from the flat buffer length:
/// the exact square root when `length` is a perfect square, an error
/// otherwise.
pub fn calculate_grid_size(length: usize) -> (r: Result<usize, GridError>)
    ensures
        r is Ok <==> is_square(length as int),
        r is Ok ==> r->Ok_0 * r->Ok_0 == length,
        r is Err ==> r->Err_0 == GridError::InvalidDimension,
{
    let mut side: usize = 0;
    loop
        invariant
            side <= length,
            forall|t: int| 0 <= t < side ==> #[trigger] (t * t) < length,
        decreases length - side,
    {
        match side.checked_mul(side) {
            None => {
                proof {
                    assert forall|t: int| 0 <= t implies #[trigger] (t * t) != length by {
                        if t < side {
                        } else {
                            lemma_square_monotonic(side as int, t);
                        }
                    }
                }
                return Err(GridError::InvalidDimension);
            },
            Some(sq) => {
                if sq == length {
                    assert(is_square(length as int)) by {
                        assert(0 <= side as int && (side as int) * (side as int) == length);
                    }
                    return Ok(side);
                }
                if sq > length {
                    proof {
                        assert forall|t: int| 0 <= t implies #[trigger] (t * t) != length by {
                            if t < side {
                            } else {
                                lemma_square_monotonic(side as int, t);
                            }
                        }
                    }
                    return Err(GridError::InvalidDimension);
                }
                assert(side < length) by (nonlinear_arith)
                    requires
                        (side as int) * (side as int) < length as int,
                ;
                side = side + 1;
            },
        }
    }
}

/// Facts about splitting a flat index `d` of a `s`-by-`s` buffer into a
/// line number `d / s` and an offset `d % s` within the line.
proof fn lemma_split_index(d: int, s: int)
    requires
        0 < s,
        0 <= d < s * s,
    ensures
        0 <= d % s < s,
        0 <= d / s < s,
        (d / s) * s + d % s == d,
        0 <= (d % s) * s + d / s < s * s,
        ((d % s) * s + d / s) % s == d / s,
        ((d % s) * s + d / s) / s == d % s,
{
    lemma_fundamental_div_mod(d, s);
    lemma_mod_pos_bound(d, s);
    let q = d / s;
    let r = d % s;
    assert(0 <= q && q < s && (q * s + r == d)) by (nonlinear_arith)
        requires
            0 < s,
            0 <= d < s * s,
            d == s * q + r,
            0 <= r < s,
    ;
    assert(0 <= r * s + q < s * s) by (nonlinear_arith)
        requires
            0 < s,
            0 <= r < s,
            0 <= q < s,
    ;
    lemma_fundamental_div_mod_converse(r * s + q, s, r, q);
}

/// Rewrite a row-major square buffer into the column-major buffer of the
/// same `size`-by-`size` matrix.
pub fn rows_to_cols(rows: &Vec<u8>, size: usize) -> (cols: Vec<u8>)
    requires
        rows@.len() == size * size,
    ensures
        cols@ == transpose(rows@, size as nat),
{
    let length: usize = rows.len();
    proof {
        // The buffer length, and so `size * size`, fits in a usize.
        assert(size * size == length);
    }
    let mut cols: Vec<u8> = Vec::new();
    let mut y: usize = 0;
    while y < size
        invariant
            y <= size,
            rows@.len() == size * size,
            size * size <= usize::MAX,
            cols@.len() == y * size,
            forall|d: int| 0 <= d < y * size ==> cols@[d] == transpose(rows@, size as nat)[d],
        decreases size - y,
    {
        let mut x: usize = 0;
        while x < size
            invariant
                x <= size,
                y < size,
                rows@.len() == size * size,
                size * size <= usize::MAX,
                cols@.len() == y * size + x,
                forall|d: int| 0 <= d < y * size + x ==> cols@[d] == transpose(
                    rows@,
                    size as nat,
                )[d],
            decreases size - x,
        {
            proof {
                assert(0 <= (x as int) * (size as int) + y < (size as int) * (size as int))
                    by (nonlinear_arith)
                    requires
                        0 <= x < size,
                        0 <= y < size,
                ;
                assert(0 <= (y as int) * (size as int) + x < (size as int) * (size as int))
                    by (nonlinear_arith)
                    requires
                        0 <= x < size,
                        0 <= y < size,
                ;
            }
            let src: usize = x * size + y;
            cols.push(rows[src]);
            proof {
                let d = (y as int) * (size as int) + x;
                lemma_fundamental_div_mod_converse(d, size as int, y as int, x as int);
                assert(cols@[d] == transpose(rows@, size as nat)[d]);
            }
            x = x + 1;
        }
        proof {
            assert((y as int + 1) * (size as int) == (y as int) * (size as int) + size)
                by (nonlinear_arith)
            ;
        }
        y = y + 1;
    }
    proof {
        assert(cols@ =~= transpose(rows@, size as nat));
    }
    cols
}

/// Build a grid from a flat row-major buffer: derive the side length and
/// the column-major view. Fails exactly when the buffer length is not a
/// perfect square.
pub fn string_to_grid(grid: Vec<u8>) -> (r: Result<Grid, GridError>)
    ensures
        r is Ok <==> is_square(grid@.len() as int),
        r is Ok ==> (r->Ok_0).wf(),
        r is Ok ==> (r->Ok_0).rows@ == grid@,
        r is Ok ==> (r->Ok_0).size * (r->Ok_0).size == grid@.len(),
        r is Err ==> r->Err_0 == GridError::InvalidDimension,
{
    let size: usize = match calculate_grid_size(grid.len()) {
        Ok(s) => s,
        Err(e) => {
            return Err(e);
        },
    };
    let columns = rows_to_cols(&grid, size);
    Ok(Grid { size, rows: grid, columns })
}

/// Transposing a square buffer of side `size` twice reproduces the
/// original buffer.
pub proof fn lemma_transpose_involution(rows: Seq<u8>, size: nat)
    requires
        rows.len() == size * size,
    ensures
        transpose(transpose(rows, size), size) == rows,
{
    let s = size as int;
    let t = transpose(rows, size);
    let tt = transpose(t, size);
    assert forall|d: int| 0 <= d < s * s implies tt[d] == rows[d] by {
        assert(s > 0) by (nonlinear_arith)
            requires
                0 <= s,
                0 <= d < s * s,
        ;
        lemma_split_index(d, s);
        let e = (d % s) * s + d / s;
        assert(tt[d] == t[e]);
        assert(t[e] == rows[(e % s) * s + e / s]);
        assert(rows[(e % s) * s + e / s] == rows[(d / s) * s + d % s]);
    }
    assert(tt =~= rows);
}

} // verus!
