use vstd::prelude::*;

verus! {

/// Horizontal neighbour pairs `(a, a + step)` of a `width × height` vertex
/// grid, row by row, for every `a` whose partner lies in the same row.
pub open spec fn row_pairs(width: int, height: int, step: int) -> Seq<(usize, usize)> {
    let per_row = width - step;
    Seq::new((height * per_row) as nat, |k: int| {
        let a = (k / per_row) * width + k % per_row;
        (a as usize, (a + step) as usize)
    })
}

/// Vertical pairs `(a, a + rows * width)`, for every vertex `a` whose
/// partner lies `rows` rows further down.
pub open spec fn column_pairs(width: int, height: int, rows: int) -> Seq<(usize, usize)> {
    Seq::new(((height - rows) * width) as nat, |k: int| (k as usize, (k + rows * width) as usize))
}

/// The stretch constraints of a cloth grid: neighbours along rows, then
/// along columns.
pub open spec fn stretch_pairs(width: int, height: int) -> Seq<(usize, usize)> {
    row_pairs(width, height, 1) + column_pairs(width, height, 1)
}

/// The bend constraints: vertices two apart along rows (grids at least 3
/// wide), then along columns (grids at least 3 high).
pub open spec fn bend_pairs(width: int, height: int) -> Seq<(usize, usize)> {
    (if width >= 3 { row_pairs(width, height, 2) } else { Seq::empty() }) + (if height >= 3 {
        column_pairs(width, height, 2)
    } else {
        Seq::empty()
    })
}

fn push_row_pairs(out: &mut Vec<(usize, usize)>, width: usize, height: usize, step: usize)
    requires
        1 <= step < width,
        width * height <= usize::MAX,
    ensures
        final(out)@ == old(out)@ + row_pairs(width as int, height as int, step as int),
{
    let ghost start = out@;
    let per_row = width - step;
    let mut y: usize = 0;
    while y < height
        invariant
            1 <= step < width,
            per_row == width - step,
            width * height <= usize::MAX,
            y <= height,
            out@.len() == start.len() + y * per_row,
            forall|i: int| 0 <= i < start.len() ==> out@[i] == start[i],
            forall|k: int| 0 <= k < y * per_row ==> out@[start.len() + k] == row_pairs(width as int, height as int, step as int)[k],
        decreases height - y,
    {
        proof {
            assert(y * width + width <= width * height) by (nonlinear_arith)
                requires y < height;
        }
        let mut x: usize = 0;
        while x < per_row
            invariant
                1 <= step < width,
                per_row == width - step,
                width * height <= usize::MAX,
                y < height,
                y * width + width <= width * height,
                x <= per_row,
                out@.len() == start.len() + y * per_row + x,
                forall|i: int| 0 <= i < start.len() ==> out@[i] == start[i],
                forall|k: int| 0 <= k < y * per_row + x ==> out@[start.len() + k] == row_pairs(width as int, height as int, step as int)[k],
            decreases per_row - x,
        {
            let a = y * width + x;
            proof {
                let k = y * per_row + x;
                assert(k < height * per_row) by (nonlinear_arith)
                    requires y < height, x < per_row, k == y * per_row + x;
                vstd::arithmetic::div_mod::lemma_fundamental_div_mod_converse(k as int, per_row as int, y as int, x as int);
            }
            out.push((a, a + step));
            x = x + 1;
        }
        proof {
            assert(y * per_row + per_row == (y + 1) * per_row) by (nonlinear_arith);
        }
        y = y + 1;
    }
    proof {
        assert(out@ =~= start + row_pairs(width as int, height as int, step as int));
    }
}

fn push_column_pairs(out: &mut Vec<(usize, usize)>, width: usize, height: usize, rows: usize)
    requires
        1 <= rows < height,
        width * height <= usize::MAX,
    ensures
        final(out)@ == old(out)@ + column_pairs(width as int, height as int, rows as int),
{
    let ghost start = out@;
    proof {
        assert((height - rows) * width + rows * width == width * height) by (nonlinear_arith);
        assert(0 <= rows * width) by (nonlinear_arith);
    }
    let n = (height - rows) * width;
    let shift = rows * width;
    let mut k: usize = 0;
    while k < n
        invariant
            n + shift == width * height,
            width * height <= usize::MAX,
            n == (height - rows) * width,
            shift == rows * width,
            k <= n,
            out@.len() == start.len() + k,
            forall|i: int| 0 <= i < start.len() ==> out@[i] == start[i],
            forall|j: int| 0 <= j < k ==> out@[start.len() + j] == column_pairs(width as int, height as int, rows as int)[j],
        decreases n - k,
    {
        out.push((k, k + shift));
        k = k + 1;
    }
    proof {
        assert(out@ =~= start + column_pairs(width as int, height as int, rows as int));
    }
}

/// Index pairs of the stretch and bend constraints of a cloth of
/// `width × height` vertices (vertex `y * width + x`): stretch joins
/// neighbours along rows then columns, bend joins vertices two apart.
pub fn grid_constraints(width: usize, height: usize) -> (r: (Vec<(usize, usize)>, Vec<(usize, usize)>))
    requires
        width >= 1,
        height >= 1,
        width * height <= usize::MAX,
    ensures
        r.0@ == stretch_pairs(width as int, height as int),
        r.1@ == bend_pairs(width as int, height as int),
{
    let mut stretch: Vec<(usize, usize)> = Vec::new();
    if width > 1 {
        push_row_pairs(&mut stretch, width, height, 1);
    }
    if height > 1 {
        push_column_pairs(&mut stretch, width, height, 1);
    }
    let mut bend: Vec<(usize, usize)> = Vec::new();
    if width >= 3 {
        push_row_pairs(&mut bend, width, height, 2);
    }
    if height >= 3 {
        push_column_pairs(&mut bend, width, height, 2);
    }
    proof {
        if width == 1 {
            assert((height as int) * ((width as int) - 1) == 0);
            assert(row_pairs(width as int, height as int, 1) =~= Seq::empty());
        }
        if height == 1 {
            assert(((height as int) - 1) * (width as int) == 0) by (nonlinear_arith)
                requires height == 1;
            assert(column_pairs(width as int, height as int, 1) =~= Seq::empty());
        }
        assert(stretch@ =~= stretch_pairs(width as int, height as int));
        assert(bend@ =~= bend_pairs(width as int, height as int));
    }
    (stretch, bend)
}

} // verus!
