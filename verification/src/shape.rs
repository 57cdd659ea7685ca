use vstd::prelude::*;

verus! {

/// The number of elements a tensor of the given dimensions holds:
/// the product of all dimensions (1 for the empty shape).
pub open spec fn shape_product(dims: Seq<usize>) -> int
    decreases dims.len(),
{
    if dims.len() == 0 {
        1
    } else {
        shape_product(dims.drop_last()) * dims.last()
    }
}

/// Every running product `d0 * d1 * ... * d(i-1)` fits in a `usize`, so the
/// product can be computed left to right without overflow.
pub open spec fn prefix_products_fit(dims: Seq<usize>) -> bool {
    forall|i: int| 0 <= i <= dims.len() ==> #[trigger] shape_product(dims.take(i)) <= usize::MAX
}

proof fn lemma_take_step(dims: Seq<usize>, i: int)
    requires
        0 <= i < dims.len(),
    ensures
        shape_product(dims.take(i + 1)) == shape_product(dims.take(i)) * dims[i],
{
    assert(dims.take(i + 1).drop_last() =~= dims.take(i));
}

/// The element count of a shape, computed left to right.
pub fn numel(dims: &Vec<usize>) -> (n: usize)
    requires
        prefix_products_fit(dims@),
    ensures
        n == shape_product(dims@),
{
    let mut acc: usize = 1;
    let mut i: usize = 0;
    assert(dims@.take(0) =~= Seq::<usize>::empty());
    while i < dims.len()
        invariant
            i <= dims.len(),
            prefix_products_fit(dims@),
            acc == shape_product(dims@.take(i as int)),
        decreases dims.len() - i,
    {
        proof {
            lemma_take_step(dims@, i as int);
            assert(shape_product(dims@.take(i + 1)) <= usize::MAX);
        }
        acc = acc * dims[i];
        i = i + 1;
    }
    assert(dims@.take(dims.len() as int) =~= dims@);
    acc
}


/// The element count of a shape, or `None` when some running product
/// `d0 * ... * d(i-1)` does not fit in a `usize`.
pub fn checked_numel(dims: &Vec<usize>) -> (r: Option<usize>)
    ensures
        r.is_some() <==> prefix_products_fit(dims@),
        r matches Some(n) ==> n == shape_product(dims@),
{
    let mut acc: usize = 1;
    let mut i: usize = 0;
    assert(dims@.take(0) =~= Seq::<usize>::empty());
    while i < dims.len()
        invariant
            i <= dims.len(),
            acc == shape_product(dims@.take(i as int)),
            forall|k: int| 0 <= k <= i ==> #[trigger] shape_product(dims@.take(k)) <= usize::MAX,
        decreases dims.len() - i,
    {
        proof {
            lemma_take_step(dims@, i as int);
        }
        match acc.checked_mul(dims[i]) {
            Some(next) => {
                acc = next;
                i = i + 1;
            },
            None => {
                assert(shape_product(dims@.take(i + 1)) > usize::MAX);
                return None;
            },
        }
    }
    assert(dims@.take(dims.len() as int) =~= dims@);
    Some(acc)
}

/// Half-open range `[t * block, min(t * block + block, len))` of the `t`-th
/// tile when `0..len` is walked in steps of `block`.
pub open spec fn tile_range(t: int, block: int, len: int) -> (int, int) {
    let start = t * block;
    let end = if start + block < len { start + block } else { len };
    (start, end)
}

/// The number of tiles of size `block` that cover `0..len`.
pub open spec fn tile_count(block: int, len: int) -> int {
    (len + block - 1) / block
}

/// The tiles that a blocked loop `for start in (0..len).step_by(block)` visits,
/// each clipped to `len` as `(start, (start + block).min(len))`.
pub fn block_ranges(len: usize, block: usize) -> (tiles: Vec<(usize, usize)>)
    requires
        block > 0,
        len + block <= usize::MAX,
    ensures
        tiles@.len() == tile_count(block as int, len as int),
        forall|t: int|
            0 <= t < tiles@.len() ==> (#[trigger] tiles@[t]).0 == tile_range(t, block as int, len as int).0
                && tiles@[t].1 == tile_range(t, block as int, len as int).1,
{
    let mut tiles: Vec<(usize, usize)> = Vec::new();
    let mut start: usize = 0;
    assert(tiles@.len() * block == 0) by (nonlinear_arith)
        requires
            tiles@.len() == 0,
    ;
    while start < len
        invariant
            block > 0,
            len + block <= usize::MAX,
            start == tiles@.len() * block,
            tiles@.len() == 0 || start < len + block,
            start <= len || tiles@.len() > 0,
            (tiles@.len() as int - 1) * (block as int) < len || tiles@.len() == 0,
            forall|t: int|
                0 <= t < tiles@.len() ==> (#[trigger] tiles@[t]).0 == tile_range(t, block as int, len as int).0
                    && tiles@[t].1 == tile_range(t, block as int, len as int).1,
        decreases len + block - start,
    {
        let end: usize = if start + block < len { start + block } else { len };
        let ghost n = tiles@.len();
        tiles.push((start, end));
        proof {
            assert((n + 1) * block == n * block + block) by (nonlinear_arith);
        }
        start = start + block;
    }
    proof {
        let n = tiles@.len() as int;
        let b = block as int;
        let l = len as int;
        assert(n * b >= l);
        assert(n == 0 || (n - 1) * b < l);
        assert((l + b - 1) / b == n) by (nonlinear_arith)
            requires
                b > 0,
                n * b >= l,
                n == 0 || (n - 1) * b < l,
                l >= 0,
                n >= 0,
        ;
    }
    tiles
}


/// Row-major addressing of a matrix with `cols` columns: `(r, c)` sits at
/// `r * cols + c`, which lies inside the first `rows * cols` slots and inside
/// row `r`'s own span.
pub proof fn lemma_flat_index(r: int, c: int, rows: int, cols: int)
    requires
        0 <= r < rows,
        0 <= c < cols,
    ensures
        0 <= r * cols,
        0 <= r * cols + c < rows * cols,
        r * cols + c < (r + 1) * cols,
        (r + 1) * cols <= rows * cols,
        (r + 1) * cols == r * cols + cols,
{
    assert(0 <= r * cols) by (nonlinear_arith)
        requires
            0 <= r,
            0 <= c < cols,
    ;
    assert((r + 1) * cols == r * cols + cols) by (nonlinear_arith);
    assert((r + 1) * cols <= rows * cols) by (nonlinear_arith)
        requires
            r + 1 <= rows,
            0 <= c < cols,
    ;
}

/// `(n + 1) * m == n * m + m`, and both sides are non-negative for
/// non-negative factors.
pub proof fn lemma_mul_succ(n: int, m: int)
    ensures
        (n + 1) * m == n * m + m,
        n >= 0 && m >= 0 ==> n * m >= 0,
{
    assert((n + 1) * m == n * m + m) by (nonlinear_arith);
    assert(n >= 0 && m >= 0 ==> n * m >= 0) by (nonlinear_arith);
}

/// Monotonicity of a product in its first factor.
pub proof fn lemma_mul_le(a: int, b: int, m: int)
    requires
        0 <= a <= b,
        0 <= m,
    ensures
        0 <= a * m <= b * m,
{
    assert(0 <= a * m <= b * m) by (nonlinear_arith)
        requires
            0 <= a <= b,
            0 <= m,
    ;
}


/// The tile that index `k` falls in when tiles are `block` long.
pub open spec fn tile_of(k: int, block: int) -> int {
    k / block
}

/// The tiles of a blocked loop over `0..len` partition it: every index `k`
/// lies in tile `k / block` and in no other tile, and the tiles are
/// non-empty, in order and adjacent.
pub proof fn lemma_tiles_partition(block: int, len: int)
    requires
        block > 0,
        len >= 0,
    ensures
        forall|k: int|
            0 <= k < len ==> 0 <= #[trigger] tile_of(k, block) < tile_count(block, len) && tile_range(
                tile_of(k, block),
                block,
                len,
            ).0 <= k < tile_range(tile_of(k, block), block, len).1,
        forall|k: int, t: int|
            #![trigger tile_of(k, block), tile_range(t, block, len)]
            0 <= k < len && 0 <= t < tile_count(block, len) && tile_range(t, block, len).0 <= k
                < tile_range(t, block, len).1 ==> t == tile_of(k, block),
        forall|t: int|
            0 <= t < tile_count(block, len) ==> #[trigger] tile_range(t, block, len).0 < tile_range(
                t,
                block,
                len,
            ).1,
        forall|t: int|
            0 <= t && t + 1 < tile_count(block, len) ==> #[trigger] tile_range(t, block, len).1
                == tile_range(t + 1, block, len).0,
        tile_count(block, len) > 0 ==> tile_range(0, block, len).0 == 0 && tile_range(
            tile_count(block, len) - 1,
            block,
            len,
        ).1 == len,
{
    let n = tile_count(block, len);
    assert forall|k: int| 0 <= k < len implies 0 <= #[trigger] tile_of(k, block) < tile_count(block, len)
        && tile_range(tile_of(k, block), block, len).0 <= k < tile_range(tile_of(k, block), block, len).1 by {
        let t = k / block;
        vstd::arithmetic::div_mod::lemma_fundamental_div_mod(k, block);
        assert(0 <= k % block < block) by (nonlinear_arith)
            requires
                block > 0,
        ;
        assert(0 <= t) by (nonlinear_arith)
            requires
                block > 0,
                k >= 0,
                k == block * t + k % block,
                k % block < block,
        ;
        assert(t * block <= k < t * block + block) by (nonlinear_arith)
            requires
                k == block * t + k % block,
                0 <= k % block < block,
        ;
        assert(t < n) by (nonlinear_arith)
            requires
                block > 0,
                n == (len + block - 1) / block,
                t * block <= k < len,
                0 <= t,
        ;
    }
    assert forall|k: int, t: int|
        #![trigger tile_of(k, block), tile_range(t, block, len)]
        0 <= k < len && 0 <= t < tile_count(block, len) && tile_range(t, block, len).0 <= k < tile_range(
            t,
            block,
            len,
        ).1 implies t == tile_of(k, block) by {
        assert(t * block <= k < t * block + block);
        vstd::arithmetic::div_mod::lemma_fundamental_div_mod_converse_div(k, block, t, k - t * block);
    }
    assert forall|t: int| 0 <= t < tile_count(block, len) implies #[trigger] tile_range(t, block, len).0
        < tile_range(t, block, len).1 by {
        assert(t * block < len) by (nonlinear_arith)
            requires
                block > 0,
                n == (len + block - 1) / block,
                0 <= t < n,
        ;
    }
    assert forall|t: int| 0 <= t && t + 1 < tile_count(block, len) implies #[trigger] tile_range(
        t,
        block,
        len,
    ).1 == tile_range(t + 1, block, len).0 by {
        assert((t + 1) * block < len) by (nonlinear_arith)
            requires
                block > 0,
                n == (len + block - 1) / block,
                0 <= t + 1 < n,
        ;
        lemma_mul_succ(t, block);
    }
    if n > 0 {
        assert(0 * block == 0);
        assert((n - 1) * block + block >= len) by (nonlinear_arith)
            requires
                block > 0,
                n == (len + block - 1) / block,
                len >= 0,
        ;
    }
}

} // verus!
